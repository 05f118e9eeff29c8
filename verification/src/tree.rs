//! Read-only walks over a snapshot of the document tree: ancestry
//! (`contains`-style checks and the event propagation path), sibling and
//! child navigation, and the bounded depth-first searches behind
//! `getElementsByTagName`, `getElementsByClassName`, a form's controls, a
//! `<select>`'s options and a control's `labels`.
//!
//! A node is named by its index in the snapshot; an index past the end
//! stands for a node the document no longer holds.

use vstd::prelude::*;

use crate::class_list::{class_tokens, contains_token, token_seq, views};
use crate::limits::MAX_SELECTOR_LENGTH;
use crate::text::{byte_len, chars_of, parse_usize, parse_usize_spec, same_text, utf8_len};

verus! {

/// Most nodes one search visits.
pub const MAX_SEARCH_VISITS: usize = 4096;

/// Most matches `getElementsByTagName`/`getElementsByClassName` return.
pub const MAX_SEARCH_RESULTS: usize = 2048;

/// An element's tag and attributes (names unique, in document order).
pub struct ElementData {
    pub tag: String,
    pub attributes: Vec<(String, String)>,
}

/// One node: its parent, its children in order, and its element data when
/// it is an element.
pub struct TreeNode {
    pub parent: Option<usize>,
    pub children: Vec<usize>,
    pub element: Option<ElementData>,
}

/// A snapshot of the document's nodes.
pub struct NodeTree {
    pub nodes: Vec<TreeNode>,
}

/// The parent of `id`, `None` for a root or a node the tree lacks.
pub open spec fn parent_of(t: NodeTree, id: usize) -> Option<usize> {
    if id < t.nodes@.len() {
        t.nodes@[id as int].parent
    } else {
        None
    }
}

/// The `k`-th node on the way up from `start` (`start` itself first).
pub open spec fn chain_node(t: NodeTree, start: usize, k: nat) -> Option<usize>
    decreases k,
{
    if k == 0 {
        Some(start)
    } else {
        match chain_node(t, start, (k - 1) as nat) {
            Some(n) => parent_of(t, n),
            None => None,
        }
    }
}

/// The children of `id` (none for a node the tree lacks).
pub open spec fn children_of(t: NodeTree, id: usize) -> Seq<usize> {
    if id < t.nodes@.len() {
        t.nodes@[id as int].children@
    } else {
        seq![]
    }
}

impl NodeTree {
    /// The parent of `id`.
    pub fn parent(&self, id: usize) -> (r: Option<usize>)
        ensures
            r == parent_of(*self, id),
    {
        if id < self.nodes.len() {
            self.nodes[id].parent
        } else {
            None
        }
    }
}

/// Whether `ancestor` is `node` or one of its ancestors, following at most
/// as many parent links as the tree has nodes (a document tree has no
/// longer chain).
pub open spec fn ancestor_or_self(t: NodeTree, ancestor: usize, node: usize) -> bool {
    exists|k: nat| k <= t.nodes@.len() && #[trigger] chain_node(t, node, k) == Some(ancestor)
}

/// Whether `ancestor` is `node` or one of its ancestors (see
/// `ancestor_or_self`).
pub fn is_ancestor(t: &NodeTree, ancestor: usize, node: usize) -> (r: bool)
    ensures
        r == ancestor_or_self(*t, ancestor, node),
{
    let bound = t.nodes.len();
    let mut current = node;
    let mut k: usize = 0;
    loop
        invariant
            bound == t.nodes@.len(),
            k <= bound,
            chain_node(*t, node, k as nat) == Some(current),
            forall|j: nat| j < k ==> #[trigger] chain_node(*t, node, j) != Some(ancestor),
        decreases bound - k,
    {
        if current == ancestor {
            return true;
        }
        match t.parent(current) {
            None => {
                proof {
                    assert forall|j: nat| j <= bound implies #[trigger] chain_node(*t, node, j)
                        != Some(ancestor) by {
                        if j > k {
                            lemma_chain_stays_none(*t, node, (k + 1) as nat, j);
                        }
                    }
                }
                return false;
            },
            Some(p) => {
                if k == bound {
                    proof {
                        assert forall|j: nat| j <= bound implies #[trigger] chain_node(
                            *t,
                            node,
                            j,
                        ) != Some(ancestor) by {
                            if j == k {
                            }
                        }
                    }
                    return false;
                }
                current = p;
                k = k + 1;
            },
        }
    }
}

proof fn lemma_chain_stays_none(t: NodeTree, start: usize, a: nat, b: nat)
    requires
        a <= b,
        chain_node(t, start, a) == None::<usize>,
    ensures
        chain_node(t, start, b) == None::<usize>,
    decreases b - a,
{
    if a < b {
        lemma_chain_stays_none(t, start, a, (b - 1) as nat);
    }
}

/// The propagation path of an event dispatched at `target`: `target` and
/// its ancestors up to the root, or `None` when that path is longer than
/// 128 nodes.
pub fn build_ancestor_chain(t: &NodeTree, target: usize) -> (r: Option<Vec<usize>>)
    ensures
        match r {
            Some(c) => c@.len() <= crate::events::MAX_BUBBLE_DEPTH && chain_node(
                *t,
                target,
                c@.len() as nat,
            ) == None::<usize> && forall|k: int|
                0 <= k < c@.len() ==> chain_node(*t, target, k as nat) == Some(#[trigger] c@[k]),
            None => chain_node(*t, target, crate::events::MAX_BUBBLE_DEPTH as nat) is Some,
        },
{
    let mut chain: Vec<usize> = Vec::new();
    let mut current: Option<usize> = Some(target);
    let mut k: usize = 0;
    while k < crate::events::MAX_BUBBLE_DEPTH
        invariant
            k <= crate::events::MAX_BUBBLE_DEPTH,
            chain@.len() == k,
            current == chain_node(*t, target, k as nat),
            forall|j: int| 0 <= j < k ==> chain_node(*t, target, j as nat) == Some(#[trigger] chain@[j]),
        decreases crate::events::MAX_BUBBLE_DEPTH - k,
    {
        match current {
            None => {
                return Some(chain);
            },
            Some(id) => {
                chain.push(id);
                current = t.parent(id);
                k = k + 1;
            },
        }
    }
    match current {
        Some(_) => None,
        None => Some(chain),
    }
}

/// The position of `id` among `siblings`, first occurrence.
pub open spec fn index_in(siblings: Seq<usize>, id: usize) -> Option<int>
    decreases siblings.len(),
{
    if siblings.len() == 0 {
        None
    } else {
        match index_in(siblings.drop_last(), id) {
            Some(i) => Some(i),
            None => if siblings.last() == id {
                Some(siblings.len() - 1)
            } else {
                None
            },
        }
    }
}

fn position_in(siblings: &Vec<usize>, id: usize) -> (r: Option<usize>)
    ensures
        match r {
            Some(i) => index_in(siblings@, id) == Some(i as int),
            None => index_in(siblings@, id) == None::<int>,
        },
{
    let n = siblings.len();
    let mut i: usize = 0;
    while i < n
        invariant
            n == siblings@.len(),
            i <= n,
            index_in(siblings@.take(i as int), id) == None::<int>,
        decreases n - i,
    {
        proof {
            assert(siblings@.take(i + 1).drop_last() =~= siblings@.take(i as int));
        }
        if siblings[i] == id {
            proof {
                lemma_index_prefix(siblings@, id, i as int);
            }
            return Some(i);
        }
        i = i + 1;
    }
    proof {
        assert(siblings@.take(n as int) =~= siblings@);
    }
    None
}

proof fn lemma_index_prefix(s: Seq<usize>, id: usize, i: int)
    requires
        0 <= i < s.len(),
        index_in(s.take(i), id) == None::<int>,
        s[i] == id,
    ensures
        index_in(s, id) == Some(i),
    decreases s.len(),
{
    assert(s.take(i + 1).drop_last() =~= s.take(i));
    if i + 1 < s.len() {
        assert(s.drop_last().take(i) =~= s.take(i));
        lemma_index_prefix(s.drop_last(), id, i);
    } else {
        assert(s.drop_last() =~= s.take(i));
    }
}

proof fn lemma_index_bounds(s: Seq<usize>, id: usize)
    ensures
        index_in(s, id) matches Some(i) ==> 0 <= i < s.len() && s[i] == id,
    decreases s.len(),
{
    if s.len() > 0 {
        lemma_index_bounds(s.drop_last(), id);
    }
}

/// The sibling right after (`next`) or right before (`!next`) `id` among
/// its parent's children.
pub open spec fn sibling_spec(t: NodeTree, id: usize, next: bool) -> Option<usize> {
    match parent_of(t, id) {
        None => None,
        Some(p) => {
            let sibs = children_of(t, p);
            match index_in(sibs, id) {
                None => None,
                Some(i) => if next {
                    if i + 1 < sibs.len() {
                        Some(sibs[i + 1])
                    } else {
                        None
                    }
                } else if i >= 1 {
                    Some(sibs[i - 1])
                } else {
                    None
                },
            }
        },
    }
}

/// `nextSibling` (`next`) or `previousSibling` (`!next`) of `id`.
pub fn sibling(t: &NodeTree, id: usize, next: bool) -> (r: Option<usize>)
    ensures
        r == sibling_spec(*t, id, next),
{
    let parent = match t.parent(id) {
        None => {
            return None;
        },
        Some(p) => p,
    };
    if parent >= t.nodes.len() {
        return None;
    }
    let sibs = &t.nodes[parent].children;
    let index = match position_in(sibs, id) {
        None => {
            return None;
        },
        Some(i) => i,
    };
    proof {
        lemma_index_bounds(sibs@, id);
    }
    if next {
        if index < sibs.len() - 1 {
            Some(sibs[index + 1])
        } else {
            None
        }
    } else if index >= 1 {
        Some(sibs[index - 1])
    } else {
        None
    }
}

/// `firstChild` (`first`) or `lastChild` (`!first`) of `id`.
pub fn end_child(t: &NodeTree, id: usize, first: bool) -> (r: Option<usize>)
    ensures
        r == (if children_of(*t, id).len() == 0 {
            None::<usize>
        } else if first {
            Some(children_of(*t, id)[0])
        } else {
            Some(children_of(*t, id).last())
        }),
{
    if id >= t.nodes.len() {
        return None;
    }
    let c = &t.nodes[id].children;
    if c.len() == 0 {
        None
    } else if first {
        Some(c[0])
    } else {
        Some(c[c.len() - 1])
    }
}

/// The order in which a stack-driven depth-first walk visits nodes: pop a
/// node, then push its children last-to-first so the first child is
/// visited next. At most `fuel` nodes are visited.
pub open spec fn walk(t: NodeTree, stack: Seq<usize>, fuel: nat) -> Seq<usize>
    decreases fuel,
{
    if fuel == 0 || stack.len() == 0 {
        seq![]
    } else {
        let id = stack.last();
        seq![id] + walk(t, stack.drop_last() + children_of(t, id).reverse(), (fuel - 1) as nat)
    }
}

/// The tag of `id` when it is an element.
pub open spec fn tag_of(t: NodeTree, id: usize) -> Option<Seq<char>> {
    if id < t.nodes@.len() {
        match t.nodes@[id as int].element {
            Some(e) => Some(e.tag@),
            None => None,
        }
    } else {
        None
    }
}

/// The views of a tag list.
pub open spec fn tag_views(tags: Seq<&str>) -> Seq<Seq<char>> {
    tags.map_values(|s: &str| s@)
}

/// Whether `id` (other than `start`) is an element whose tag is one of
/// `tags`.
pub open spec fn tag_listed(t: NodeTree, start: usize, id: usize, tags: Seq<Seq<char>>) -> bool {
    id != start && match tag_of(t, id) {
        Some(tag) => tags.contains(tag),
        None => false,
    }
}

/// The entries of `s` satisfying `tag_listed`, in order, up to the point
/// where more than `cap` have been collected: nothing is added after that.
pub open spec fn filter_listed(
    t: NodeTree,
    start: usize,
    s: Seq<usize>,
    tags: Seq<Seq<char>>,
    cap: nat,
) -> Seq<usize>
    decreases s.len(),
{
    if s.len() == 0 {
        seq![]
    } else {
        let front = filter_listed(t, start, s.drop_last(), tags, cap);
        if front.len() <= cap && tag_listed(t, start, s.last(), tags) {
            front.push(s.last())
        } else {
            front
        }
    }
}

proof fn lemma_filter_cap_sticks(
    t: NodeTree,
    start: usize,
    s: Seq<usize>,
    tags: Seq<Seq<char>>,
    cap: nat,
    k: int,
)
    requires
        0 <= k <= s.len(),
        filter_listed(t, start, s.take(k), tags, cap).len() > cap,
    ensures
        filter_listed(t, start, s, tags, cap) == filter_listed(t, start, s.take(k), tags, cap),
    decreases s.len() - k,
{
    if k < s.len() {
        assert(s.take(k + 1).drop_last() =~= s.take(k));
        lemma_filter_cap_sticks(t, start, s, tags, cap, k + 1);
    } else {
        assert(s.take(k) =~= s);
    }
}

fn push_children_reversed(stack: &mut Vec<usize>, children: &Vec<usize>)
    ensures
        final(stack)@ == old(stack)@ + children@.reverse(),
{
    let mut j = children.len();
    let ghost start = stack@;
    while j > 0
        invariant
            j <= children@.len(),
            stack@ == start + children@.skip(j as int).reverse(),
        decreases j,
    {
        stack.push(children[j - 1]);
        proof {
            assert(children@.skip(j - 1).reverse() =~= children@.skip(j as int).reverse().push(
                children@[j - 1],
            ));
        }
        j = j - 1;
    }
    proof {
        assert(children@.skip(0) =~= children@);
    }
}

fn tag_in_list(tag: &String, tags: &Vec<&str>) -> (r: bool)
    ensures
        r == tag_views(tags@).contains(tag@),
{
    let n = tags.len();
    let mut i: usize = 0;
    while i < n
        invariant
            n == tags@.len(),
            i <= n,
            forall|j: int| 0 <= j < i ==> tags@[j]@ != tag@,
        decreases n - i,
    {
        if same_text(tag.as_str(), tags[i]) {
            proof {
                assert(tag_views(tags@)[i as int] == tag@);
            }
            return true;
        }
        i = i + 1;
    }
    proof {
        if tag_views(tags@).contains(tag@) {
            let k = choose|k: int| 0 <= k < tag_views(tags@).len() && tag_views(tags@)[k] == tag@;
            assert(tags@[k]@ == tag@);
        }
    }
    false
}

proof fn lemma_walk_step(t: NodeTree, stack: Seq<usize>, fuel: nat)
    requires
        fuel > 0,
        stack.len() > 0,
    ensures
        walk(t, stack, fuel) == seq![stack.last()] + walk(
            t,
            stack.drop_last() + children_of(t, stack.last()).reverse(),
            (fuel - 1) as nat,
        ),
{
}

/// The element descendants of `start` whose tag is one of `tags`, in
/// document order, among the first 4096 nodes a depth-first walk from
/// `start` visits, the walk stopping once more than `max_results` have
/// been found (what a form's controls and a select's options are read
/// from).
pub fn descendants_matching_tags(t: &NodeTree, start: usize, tags: &Vec<&str>, max_results: usize) -> (r:
    Vec<usize>)
    ensures
        r@ == filter_listed(
            *t,
            start,
            walk(*t, seq![start], MAX_SEARCH_VISITS as nat),
            tag_views(tags@),
            max_results as nat,
        ),
{
    let mut result: Vec<usize> = Vec::new();
    let mut stack: Vec<usize> = Vec::new();
    stack.push(start);
    let mut visits: usize = 0;
    let ghost total = walk(*t, seq![start], MAX_SEARCH_VISITS as nat);
    proof {
        assert(stack@ =~= seq![start]);
        assert(total.take(0) =~= Seq::<usize>::empty());
        assert(total.take(0) + walk(*t, stack@, MAX_SEARCH_VISITS as nat) =~= total);
    }
    while stack.len() > 0
        invariant
            visits <= MAX_SEARCH_VISITS,
            total == walk(*t, seq![start], MAX_SEARCH_VISITS as nat),
            visits <= total.len(),
            total == total.take(visits as int) + walk(
                *t,
                stack@,
                (MAX_SEARCH_VISITS - visits) as nat,
            ),
            result@ == filter_listed(
                *t,
                start,
                total.take(visits as int),
                tag_views(tags@),
                max_results as nat,
            ),
            result@.len() <= visits,
        decreases MAX_SEARCH_VISITS - visits,
    {
        if visits >= MAX_SEARCH_VISITS {
            proof {
                assert(walk(*t, stack@, 0) =~= Seq::<usize>::empty());
                assert(total.take(visits as int) =~= total);
            }
            return result;
        }
        let ghost before_stack = stack@;
        let id = stack.pop().unwrap();
        proof {
            lemma_walk_step(*t, before_stack, (MAX_SEARCH_VISITS - visits) as nat);
            assert(before_stack.last() == id);
            assert(before_stack.drop_last() == stack@);
            let rest = walk(*t, stack@ + children_of(*t, id).reverse(), (MAX_SEARCH_VISITS - visits - 1) as nat);
            assert(total == total.take(visits as int) + (seq![id] + rest));
            assert(total.take(visits + 1) =~= total.take(visits as int).push(id));
            assert(total == total.take(visits + 1) + rest);
            assert(total.take(visits + 1).drop_last() =~= total.take(visits as int));
        }
        if result.len() > max_results {
            proof {
                lemma_filter_cap_sticks(
                    *t,
                    start,
                    total,
                    tag_views(tags@),
                    max_results as nat,
                    visits as int,
                );
            }
            return result;
        }
        if id < t.nodes.len() {
            let node = &t.nodes[id];
            if id != start {
                match &node.element {
                    Some(e) => {
                        if tag_in_list(&e.tag, tags) {
                            result.push(id);
                        }
                    },
                    None => {},
                }
            }
            push_children_reversed(&mut stack, &node.children);
        }
        visits = visits + 1;
    }
    proof {
        assert(walk(*t, stack@, (MAX_SEARCH_VISITS - visits) as nat) =~= Seq::<usize>::empty());
        assert(total.take(visits as int) =~= total);
    }
    result
}


/// Why a tag or class search failed.
#[derive(Debug, Clone, Copy, PartialEq, Eq, Structural)]
pub enum SearchError {
    /// More than 4096 nodes would have to be visited.
    TraversalLimit,
    /// The walk reached a node the tree does not hold.
    InvalidNode,
    /// A selector could not be matched against an element's ancestry.
    InvalidAncestry,
    /// More than 2048 nodes match.
    ResultLimit,
}

/// What a search looks for.
pub enum Criterion {
    /// Elements with this tag; `*` matches every element.
    Tag(Seq<char>),
    /// Elements whose class tokens include all of these.
    Classes(Seq<Seq<char>>),
    /// Elements a selector matches, as matched per node: `Some(b)` when
    /// the element's ancestry could be described, `None` when it could not.
    Selector(Seq<Option<bool>>),
}

/// The value of attribute `name` in a list of attributes, first match.
pub open spec fn attr_in(attrs: Seq<(String, String)>, name: Seq<char>) -> Option<Seq<char>>
    decreases attrs.len(),
{
    if attrs.len() == 0 {
        None
    } else {
        match attr_in(attrs.drop_last(), name) {
            Some(v) => Some(v),
            None => if attrs.last().0@ == name {
                Some(attrs.last().1@)
            } else {
                None
            },
        }
    }
}

/// The value of attribute `name` of element `id`.
pub open spec fn attr_of(t: NodeTree, id: usize, name: Seq<char>) -> Option<Seq<char>> {
    if id < t.nodes@.len() {
        match t.nodes@[id as int].element {
            Some(e) => attr_in(e.attributes@, name),
            None => None,
        }
    } else {
        None
    }
}

/// Whether `id` meets the criterion (and is not `start`, unless
/// `include_start`).
pub open spec fn meets(t: NodeTree, start: usize, include_start: bool, c: Criterion, id: usize) -> bool {
    (include_start || id != start) && match tag_of(t, id) {
        None => false,
        Some(tag) => match c {
            Criterion::Tag(want) => want == "*"@ || tag == want,
            Criterion::Classes(want) => classes_present(t, id, want),
            Criterion::Selector(m) => id < m.len() && m[id as int] == Some(true),
        },
    }
}

/// Whether `id` is an element a selector search must match (it is not
/// `start`, unless `include_start`) whose match could not be computed.
pub open spec fn ancestry_broken(t: NodeTree, start: usize, include_start: bool, c: Criterion, id: usize) -> bool {
    (include_start || id != start) && tag_of(t, id) is Some && match c {
        Criterion::Selector(m) => !(id < m.len() && m[id as int] is Some),
        _ => false,
    }
}

/// The outcome of scanning the visited nodes `s` in order: a visit past
/// the 4096th fails, a missing node fails, an element whose selector match
/// is unknown fails, a 2049th match fails; else the matches in order.
pub open spec fn scan(
    t: NodeTree,
    start: usize,
    include_start: bool,
    c: Criterion,
    s: Seq<usize>,
) -> Result<Seq<usize>, SearchError>
    decreases s.len(),
{
    if s.len() == 0 {
        Ok(seq![])
    } else {
        match scan(t, start, include_start, c, s.drop_last()) {
            Err(e) => Err(e),
            Ok(r) => {
                let id = s.last();
                if s.len() > MAX_SEARCH_VISITS {
                    Err(SearchError::TraversalLimit)
                } else if id >= t.nodes@.len() {
                    Err(SearchError::InvalidNode)
                } else if ancestry_broken(t, start, include_start, c, id) {
                    Err(SearchError::InvalidAncestry)
                } else if meets(t, start, include_start, c, id) {
                    if r.len() + 1 > MAX_SEARCH_RESULTS {
                        Err(SearchError::ResultLimit)
                    } else {
                        Ok(r.push(id))
                    }
                } else {
                    Ok(r)
                }
            },
        }
    }
}

/// The outcome of a search from `start`.
pub open spec fn search_spec(t: NodeTree, start: usize, include_start: bool, c: Criterion) -> Result<
    Seq<usize>,
    SearchError,
> {
    scan(t, start, include_start, c, walk(t, seq![start], (MAX_SEARCH_VISITS + 1) as nat))
}

/// The value of attribute `name` of element `id`.
pub fn attribute(t: &NodeTree, id: usize, name: &str) -> (r: Option<String>)
    ensures
        match r {
            Some(v) => attr_of(*t, id, name@) == Some(v@),
            None => attr_of(*t, id, name@) == None::<Seq<char>>,
        },
{
    if id >= t.nodes.len() {
        return None;
    }
    match &t.nodes[id].element {
        None => None,
        Some(e) => {
            let attrs = &e.attributes;
            let n = attrs.len();
            let mut i: usize = 0;
            proof {
                assert(attrs@.take(0) =~= Seq::<(String, String)>::empty());
            }
            while i < n
                invariant
                    n == attrs@.len(),
                    i <= n,
                    id < t.nodes@.len(),
                    t.nodes@[id as int].element matches Some(el) && el.attributes@ == attrs@,
                    attr_in(attrs@.take(i as int), name@) == None::<Seq<char>>,
                decreases n - i,
            {
                proof {
                    assert(attrs@.take(i + 1).drop_last() =~= attrs@.take(i as int));
                }
                if same_text(attrs[i].0.as_str(), name) {
                    proof {
                        lemma_attr_prefix(attrs@, name@, i as int);
                    }
                    let value = attrs[i].1.clone();
                    return Some(value);
                }
                i = i + 1;
            }
            proof {
                assert(attrs@.take(n as int) =~= attrs@);
            }
            None
        },
    }
}

proof fn lemma_attr_prefix(a: Seq<(String, String)>, name: Seq<char>, i: int)
    requires
        0 <= i < a.len(),
        attr_in(a.take(i), name) == None::<Seq<char>>,
        a[i].0@ == name,
    ensures
        attr_in(a, name) == Some(a[i].1@),
    decreases a.len(),
{
    assert(a.take(i + 1).drop_last() =~= a.take(i));
    if i + 1 < a.len() {
        assert(a.drop_last().take(i) =~= a.take(i));
        lemma_attr_prefix(a.drop_last(), name, i);
    } else {
        assert(a.drop_last() =~= a.take(i));
    }
}

fn all_tokens_present(want: &Vec<String>, have: &Vec<String>) -> (r: bool)
    ensures
        r == forall|i: int| 0 <= i < want@.len() ==> views(have@).contains(#[trigger] views(want@)[i]),
{
    let n = want.len();
    let mut i: usize = 0;
    while i < n
        invariant
            n == want@.len(),
            i <= n,
            forall|j: int| 0 <= j < i ==> views(have@).contains(#[trigger] views(want@)[j]),
        decreases n - i,
    {
        if !contains_token(have, &want[i]) {
            proof {
                assert(views(want@)[i as int] == want@[i as int]@);
            }
            return false;
        }
        proof {
            assert(views(want@)[i as int] == want@[i as int]@);
        }
        i = i + 1;
    }
    true
}

/// How a search recognizes a match.
pub enum Wanted {
    Tag(String),
    Classes(Vec<String>),
    Selector(Vec<Option<bool>>),
}

/// The criterion a `Wanted` stands for.
pub open spec fn wanted_view(w: &Wanted) -> Criterion {
    match w {
        Wanted::Tag(tag) => Criterion::Tag(tag@),
        Wanted::Classes(tokens) => Criterion::Classes(views(tokens@)),
        Wanted::Selector(m) => Criterion::Selector(m@),
    }
}

/// Whether element `id`'s class tokens include every one of `want`.
pub open spec fn classes_present(t: NodeTree, id: usize, want: Seq<Seq<char>>) -> bool {
    let have = token_seq(
        match attr_of(t, id, "class"@) {
            Some(v) => v,
            None => seq![],
        },
    );
    forall|i: int| 0 <= i < want.len() ==> have.contains(#[trigger] want[i])
}

fn node_has_classes(t: &NodeTree, id: usize, want: &Vec<String>) -> (r: bool)
    ensures
        r == classes_present(*t, id, views(want@)),
{
    let class_value = attribute(t, id, "class");
    let have = match &class_value {
        Some(v) => class_tokens(v.as_str()),
        None => class_tokens(""),
    };
    proof {
        reveal_strlit("");
        assert(""@ =~= Seq::<char>::empty());
    }
    all_tokens_present(want, &have)
}

fn selector_flag(m: &Vec<Option<bool>>, id: usize) -> (r: bool)
    ensures
        r == (id < m@.len() && m@[id as int] == Some(true)),
{
    id < m.len() && match m[id] {
        Some(b) => b,
        None => false,
    }
}

fn node_meets(t: &NodeTree, start: usize, include_start: bool, w: &Wanted, id: usize) -> (r: bool)
    requires
        id < t.nodes@.len(),
    ensures
        r == meets(*t, start, include_start, wanted_view(w), id),
{
    if !(include_start || id != start) {
        return false;
    }
    match &t.nodes[id].element {
        None => false,
        Some(e) => match w {
            Wanted::Tag(want) => same_text(want.as_str(), "*") || same_text(e.tag.as_str(), want.as_str()),
            Wanted::Classes(want) => node_has_classes(t, id, want),
            Wanted::Selector(m) => selector_flag(m, id),
        },
    }
}

fn node_ancestry_broken(t: &NodeTree, start: usize, include_start: bool, w: &Wanted, id: usize) -> (r: bool)
    requires
        id < t.nodes@.len(),
    ensures
        r == ancestry_broken(*t, start, include_start, wanted_view(w), id),
{
    if !(include_start || id != start) || t.nodes[id].element.is_none() {
        return false;
    }
    match w {
        Wanted::Selector(m) => !(id < m.len() && m[id].is_some()),
        _ => false,
    }
}

proof fn lemma_scan_step(
    t: NodeTree,
    start: usize,
    include_start: bool,
    c: Criterion,
    s: Seq<usize>,
    k: int,
)
    requires
        0 <= k < s.len(),
    ensures
        s.take(k + 1).drop_last() == s.take(k),
        s.take(k + 1).last() == s[k],
{
    assert(s.take(k + 1).drop_last() =~= s.take(k));
}

/// A bounded depth-first search from `start` for elements meeting
/// `wanted` (see `search_spec`): `getElementsByTagName` and
/// `getElementsByClassName`.
pub fn search(t: &NodeTree, start: usize, include_start: bool, wanted: &Wanted) -> (r: Result<
    Vec<usize>,
    SearchError,
>)
    ensures
        match r {
            Ok(v) => search_spec(*t, start, include_start, wanted_view(wanted)) == Ok::<
                Seq<usize>,
                SearchError,
            >(v@),
            Err(e) => search_spec(*t, start, include_start, wanted_view(wanted)) == Err::<
                Seq<usize>,
                SearchError,
            >(e),
        },
{
    let ghost c = wanted_view(wanted);
    let ghost fuel = (MAX_SEARCH_VISITS + 1) as nat;
    let ghost total = walk(*t, seq![start], fuel);
    let mut result: Vec<usize> = Vec::new();
    let mut stack: Vec<usize> = Vec::new();
    stack.push(start);
    let mut visits: usize = 0;
    proof {
        assert(stack@ =~= seq![start]);
        assert(total.take(0) =~= Seq::<usize>::empty());
        assert(total.take(0) + walk(*t, stack@, fuel) =~= total);
    }
    while stack.len() > 0
        invariant
            visits <= MAX_SEARCH_VISITS,
            c == wanted_view(wanted),
            fuel == (MAX_SEARCH_VISITS + 1) as nat,
            total == walk(*t, seq![start], fuel),
            visits <= total.len(),
            total == total.take(visits as int) + walk(*t, stack@, (fuel - visits) as nat),
            scan(*t, start, include_start, c, total.take(visits as int)) == Ok::<
                Seq<usize>,
                SearchError,
            >(result@),
        decreases MAX_SEARCH_VISITS - visits,
    {
        let ghost before_stack = stack@;
        let id = stack.pop().unwrap();
        proof {
            lemma_walk_step(*t, before_stack, (fuel - visits) as nat);
            assert(before_stack.drop_last() == stack@);
            let rest = walk(*t, stack@ + children_of(*t, id).reverse(), (fuel - visits - 1) as nat);
            assert(total == total.take(visits as int) + (seq![id] + rest));
            assert(total.take(visits + 1) =~= total.take(visits as int).push(id));
            assert(total == total.take(visits + 1) + rest);
            lemma_scan_step(*t, start, include_start, c, total, visits as int);
            assert(total[visits as int] == id);
        }
        if visits >= MAX_SEARCH_VISITS {
            proof {
                assert(total.take(visits + 1).len() > MAX_SEARCH_VISITS);
                lemma_scan_err_sticks(*t, start, include_start, c, total, (visits + 1) as int);
            }
            return Err(SearchError::TraversalLimit);
        }
        if id >= t.nodes.len() {
            proof {
                lemma_scan_err_sticks(*t, start, include_start, c, total, (visits + 1) as int);
            }
            return Err(SearchError::InvalidNode);
        }
        if node_ancestry_broken(t, start, include_start, wanted, id) {
            proof {
                lemma_scan_err_sticks(*t, start, include_start, c, total, (visits + 1) as int);
            }
            return Err(SearchError::InvalidAncestry);
        }
        if node_meets(t, start, include_start, wanted, id) {
            result.push(id);
            if result.len() > MAX_SEARCH_RESULTS {
                proof {
                    lemma_scan_err_sticks(*t, start, include_start, c, total, (visits + 1) as int);
                }
                return Err(SearchError::ResultLimit);
            }
        }
        push_children_reversed(&mut stack, &t.nodes[id].children);
        visits = visits + 1;
    }
    proof {
        assert(walk(*t, stack@, (fuel - visits) as nat) =~= Seq::<usize>::empty());
        assert(total.take(visits as int) =~= total);
    }
    Ok(result)
}

proof fn lemma_scan_err_sticks(
    t: NodeTree,
    start: usize,
    include_start: bool,
    c: Criterion,
    s: Seq<usize>,
    k: int,
)
    requires
        0 <= k <= s.len(),
        scan(t, start, include_start, c, s.take(k)) is Err,
    ensures
        scan(t, start, include_start, c, s) == scan(t, start, include_start, c, s.take(k)),
    decreases s.len() - k,
{
    if k < s.len() {
        assert(s.take(k + 1).drop_last() =~= s.take(k));
        lemma_scan_err_sticks(t, start, include_start, c, s, k + 1);
    } else {
        assert(s.take(k) =~= s);
    }
}

/// `getElementsByClassName(class_name)` from `start`: an argument without
/// tokens finds nothing without walking; otherwise a search for elements
/// holding every token.
pub fn elements_by_class_name(t: &NodeTree, start: usize, class_name: &str, include_start: bool) -> (r:
    Result<Vec<usize>, SearchError>)
    ensures
        token_seq(class_name@).len() == 0 ==> (r matches Ok(v) && v@.len() == 0),
        token_seq(class_name@).len() > 0 ==> match r {
            Ok(v) => search_spec(*t, start, include_start, Criterion::Classes(token_seq(class_name@)))
                == Ok::<Seq<usize>, SearchError>(v@),
            Err(e) => search_spec(*t, start, include_start, Criterion::Classes(token_seq(class_name@)))
                == Err::<Seq<usize>, SearchError>(e),
        },
{
    let wanted = class_tokens(class_name);
    if wanted.len() == 0 {
        return Ok(Vec::new());
    }
    search(t, start, include_start, &Wanted::Classes(wanted))
}

/// `getElementsByTagName(tag)` from `start` (`*` for every element).
pub fn elements_by_tag_name(t: &NodeTree, start: usize, tag: &str, include_start: bool) -> (r: Result<
    Vec<usize>,
    SearchError,
>)
    ensures
        match r {
            Ok(v) => search_spec(*t, start, include_start, Criterion::Tag(tag@)) == Ok::<
                Seq<usize>,
                SearchError,
            >(v@),
            Err(e) => search_spec(*t, start, include_start, Criterion::Tag(tag@)) == Err::<
                Seq<usize>,
                SearchError,
            >(e),
        },
{
    search(t, start, include_start, &Wanted::Tag(tag.to_owned()))
}


/// The `<option>` elements under `select`, in document order (the walk
/// from `select`, cut off past 4096 options).
pub open spec fn options_of(t: NodeTree, select: usize) -> Seq<usize> {
    filter_listed(
        t,
        select,
        walk(t, seq![select], MAX_SEARCH_VISITS as nat),
        seq!["option"@],
        MAX_SEARCH_VISITS as nat,
    )
}

/// Whether element `id` carries attribute `name`.
pub open spec fn has_attr(t: NodeTree, id: usize, name: Seq<char>) -> bool {
    attr_of(t, id, name) is Some
}

/// The first `<option>` under `select` carrying a `selected` attribute;
/// no option is picked implicitly.
pub fn selected_option(t: &NodeTree, select: usize) -> (r: Option<usize>)
    ensures
        match r {
            Some(o) => exists|i: int|
                0 <= i < options_of(*t, select).len() && options_of(*t, select)[i] == o
                    && has_attr(*t, o, "selected"@) && forall|j: int|
                    0 <= j < i ==> !has_attr(*t, #[trigger] options_of(*t, select)[j], "selected"@),
            None => forall|j: int|
                0 <= j < options_of(*t, select).len() ==> !has_attr(
                    *t,
                    #[trigger] options_of(*t, select)[j],
                    "selected"@,
                ),
        },
{
    let tags: Vec<&str> = vec!["option"];
    proof {
        assert(tag_views(tags@) =~= seq!["option"@]);
    }
    let options = descendants_matching_tags(t, select, &tags, MAX_SEARCH_VISITS);
    let n = options.len();
    let mut i: usize = 0;
    while i < n
        invariant
            n == options@.len(),
            options@ == options_of(*t, select),
            i <= n,
            forall|j: int| 0 <= j < i ==> !has_attr(*t, #[trigger] options@[j], "selected"@),
        decreases n - i,
    {
        let found = attribute(t, options[i], "selected");
        if found.is_some() {
            return Some(options[i]);
        }
        i = i + 1;
    }
    None
}

/// The `<label>` ancestors among the first `k` nodes above `node`, nearest
/// first.
pub open spec fn ancestor_labels(t: NodeTree, node: usize, k: nat) -> Seq<usize>
    decreases k,
{
    if k == 0 {
        seq![]
    } else {
        let front = ancestor_labels(t, node, (k - 1) as nat);
        match chain_node(t, node, k) {
            Some(a) => if tag_of(t, a) == Some("label"@) {
                front.push(a)
            } else {
                front
            },
            None => front,
        }
    }
}

/// The labels found by `for`: the `<label>` elements under `root` whose
/// `for` attribute equals `element_id`, in document order (none when the
/// search fails).
pub open spec fn for_labels(t: NodeTree, root: usize, element_id: Seq<char>) -> Seq<usize> {
    match search_spec(t, root, false, Criterion::Tag("label"@)) {
        Ok(found) => found.filter(|l: usize| attr_of(t, l, "for"@) == Some(element_id)),
        Err(_) => seq![],
    }
}

/// The labels of `id` found by `for`, when it has a non-empty `id`.
pub open spec fn labels_by_for_spec(t: NodeTree, root: usize, id: usize) -> Seq<usize> {
    match attr_of(t, id, "id"@) {
        Some(v) => if v.len() > 0 {
            for_labels(t, root, v)
        } else {
            seq![]
        },
        None => seq![],
    }
}

/// A control's `labels`: when it has a non-empty `id`, the `<label for=id>`
/// elements under `root` first, then its `<label>` ancestors, nearest
/// first (the parent chain followed for at most as many links as the tree
/// has nodes).
pub open spec fn labels_spec(t: NodeTree, root: usize, id: usize) -> Seq<usize> {
    labels_by_for_spec(t, root, id) + ancestor_labels(t, id, t.nodes@.len())
}

fn labels_by_for(t: &NodeTree, root: usize, id: usize) -> (r: Vec<usize>)
    ensures
        r@ == labels_by_for_spec(*t, root, id),
{
    let mut result: Vec<usize> = Vec::new();
    let element_id = attribute(t, id, "id");
    let v = match element_id {
        Some(v) => v,
        None => {
            return result;
        },
    };
    if v.as_str().is_empty() {
        return result;
    }
    let found = match elements_by_tag_name(t, root, "label", false) {
        Ok(found) => found,
        Err(_) => {
            return result;
        },
    };
    let n = found.len();
    let mut i: usize = 0;
    let ghost pred = |l: usize| attr_of(*t, l, "for"@) == Some(v@);
    proof {
        assert(found@.take(0).filter(pred) =~= Seq::<usize>::empty());
    }
    while i < n
        invariant
            n == found@.len(),
            i <= n,
            pred == (|l: usize| attr_of(*t, l, "for"@) == Some(v@)),
            result@ == found@.take(i as int).filter(pred),
        decreases n - i,
    {
        let target = attribute(t, found[i], "for");
        proof {
            assert(found@.take(i as int).push(found@[i as int]) =~= found@.take(i + 1));
            found@.take(i as int).lemma_filter_push(found@[i as int], pred);
        }
        match &target {
            Some(f) => {
                if same_text(f.as_str(), v.as_str()) {
                    result.push(found[i]);
                }
            },
            None => {},
        }
        i = i + 1;
    }
    proof {
        assert(found@.take(n as int) =~= found@);
    }
    result
}

/// `labels` of element `id` in the document rooted at `root`.
pub fn labels(t: &NodeTree, root: usize, id: usize) -> (r: Vec<usize>)
    ensures
        r@ == labels_spec(*t, root, id),
{
    let mut result = labels_by_for(t, root, id);
    let ghost by_for = result@;
    let bound = t.nodes.len();
    let mut current = t.parent(id);
    let mut j: usize = 0;
    proof {
        assert(ancestor_labels(*t, id, 0) =~= Seq::<usize>::empty());
        assert(result@ =~= by_for + ancestor_labels(*t, id, 0));
    }
    while j < bound
        invariant
            bound == t.nodes@.len(),
            j <= bound,
            by_for == labels_by_for_spec(*t, root, id),
            current == chain_node(*t, id, (j + 1) as nat),
            result@ == by_for + ancestor_labels(*t, id, j as nat),
        decreases bound - j,
    {
        match current {
            None => {
                proof {
                    lemma_ancestor_labels_stop(*t, id, (j + 1) as nat, bound as nat);
                }
                return result;
            },
            Some(a) => {
                let is_label = a < t.nodes.len() && match &t.nodes[a].element {
                    Some(e) => same_text(e.tag.as_str(), "label"),
                    None => false,
                };
                if is_label {
                    result.push(a);
                }
                proof {
                    assert(result@ =~= by_for + ancestor_labels(*t, id, (j + 1) as nat));
                }
                current = t.parent(a);
                j = j + 1;
            },
        }
    }
    result
}

proof fn lemma_ancestor_labels_stop(t: NodeTree, node: usize, k: nat, j: nat)
    requires
        1 <= k <= j,
        chain_node(t, node, k) == None::<usize>,
    ensures
        ancestor_labels(t, node, j) == ancestor_labels(t, node, (k - 1) as nat),
    decreases j,
{
    if j > k {
        lemma_ancestor_labels_stop(t, node, k, (j - 1) as nat);
        lemma_chain_stays_none(t, node, k, j);
    }
}

/// `namedItem(name)` over the elements `items`: the first whose `id`, or
/// else whose `name`, attribute equals `name`; nothing for an empty name.
pub open spec fn item_named(t: NodeTree, id: usize, name: Seq<char>) -> bool {
    attr_of(t, id, "id"@) == Some(name) || attr_of(t, id, "name"@) == Some(name)
}

/// `HTMLCollection.namedItem(name)`.
pub fn named_item(t: &NodeTree, items: &Vec<usize>, name: &str) -> (r: Option<usize>)
    ensures
        name@.len() == 0 ==> r is None,
        name@.len() > 0 ==> match r {
            Some(x) => exists|i: int|
                0 <= i < items@.len() && items@[i] == x && item_named(*t, x, name@) && forall|j: int|
                    0 <= j < i ==> !item_named(*t, #[trigger] items@[j], name@),
            None => forall|j: int| 0 <= j < items@.len() ==> !item_named(*t, #[trigger] items@[j], name@),
        },
{
    if name.is_empty() {
        return None;
    }
    let n = items.len();
    let mut i: usize = 0;
    while i < n
        invariant
            n == items@.len(),
            i <= n,
            name@.len() > 0,
            forall|j: int| 0 <= j < i ==> !item_named(*t, #[trigger] items@[j], name@),
        decreases n - i,
    {
        let by_id = match attribute(t, items[i], "id") {
            Some(v) => same_text(v.as_str(), name),
            None => false,
        };
        let matched = by_id || match attribute(t, items[i], "name") {
            Some(v) => same_text(v.as_str(), name),
            None => false,
        };
        if matched {
            return Some(items[i]);
        }
        i = i + 1;
    }
    None
}


/// The first element with tag `tag` under `root` (itself included), in
/// document order; `None` when there is none or the search fails.
pub open spec fn first_by_tag_spec(t: NodeTree, root: usize, tag: Seq<char>) -> Option<usize> {
    match search_spec(t, root, true, Criterion::Tag(tag)) {
        Ok(found) => if found.len() > 0 {
            Some(found[0])
        } else {
            None
        },
        Err(_) => None,
    }
}

/// `document.body`, `document.head`, `document.documentElement` and the
/// first `<title>`: the first element with tag `tag` under `root`.
pub fn first_by_tag(t: &NodeTree, root: usize, tag: &str) -> (r: Option<usize>)
    ensures
        r == first_by_tag_spec(*t, root, tag@),
{
    match elements_by_tag_name(t, root, tag, true) {
        Ok(found) => if found.len() > 0 {
            Some(found[0])
        } else {
            None
        },
        Err(_) => None,
    }
}

/// Where setting `document.title` writes.
#[derive(Debug, Clone, Copy, PartialEq, Eq, Structural)]
pub enum TitleTarget {
    /// The text of this existing `<title>` is replaced.
    Existing(usize),
    /// A new `<title>` is appended to this node.
    AppendTo(usize),
}

/// Setting `document.title`: the first `<title>` when there is one;
/// otherwise a new one goes under the first `<head>`, else the first
/// `<html>`, else `root`.
pub open spec fn title_target_spec(t: NodeTree, root: usize) -> TitleTarget {
    match first_by_tag_spec(t, root, "title"@) {
        Some(id) => TitleTarget::Existing(id),
        None => match first_by_tag_spec(t, root, "head"@) {
            Some(h) => TitleTarget::AppendTo(h),
            None => match first_by_tag_spec(t, root, "html"@) {
                Some(h) => TitleTarget::AppendTo(h),
                None => TitleTarget::AppendTo(root),
            },
        },
    }
}

/// Decides where setting `document.title` writes.
pub fn title_target(t: &NodeTree, root: usize) -> (r: TitleTarget)
    ensures
        r == title_target_spec(*t, root),
{
    if let Some(id) = first_by_tag(t, root, "title") {
        return TitleTarget::Existing(id);
    }
    if let Some(h) = first_by_tag(t, root, "head") {
        return TitleTarget::AppendTo(h);
    }
    match first_by_tag(t, root, "html") {
        Some(h) => TitleTarget::AppendTo(h),
        None => TitleTarget::AppendTo(root),
    }
}

/// What a property key of a live `HTMLCollection` names.
#[derive(Debug, Clone, Copy, PartialEq, Eq, Structural)]
pub enum CollectionKey {
    Length,
    Item,
    NamedItem,
    /// A key that parses as a `usize` index.
    Index(usize),
    Other,
}

/// The meaning of property key `key`: the three method-or-length names
/// first, then an index as `str::parse::<usize>` reads it.
pub open spec fn collection_key_spec(key: Seq<char>) -> CollectionKey {
    if key == "length"@ {
        CollectionKey::Length
    } else if key == "item"@ {
        CollectionKey::Item
    } else if key == "namedItem"@ {
        CollectionKey::NamedItem
    } else {
        match parse_usize_spec(key) {
            Some(i) => CollectionKey::Index(i as usize),
            None => CollectionKey::Other,
        }
    }
}

/// Classifies a property key of a live collection.
pub fn collection_key(key: &str) -> (r: CollectionKey)
    ensures
        r == collection_key_spec(key@),
{
    if same_text(key, "length") {
        CollectionKey::Length
    } else if same_text(key, "item") {
        CollectionKey::Item
    } else if same_text(key, "namedItem") {
        CollectionKey::NamedItem
    } else {
        let chars = chars_of(key);
        match parse_usize(chars.as_slice()) {
            Some(i) => CollectionKey::Index(i),
            None => CollectionKey::Other,
        }
    }
}

/// The `in` test of a live collection holding `len` elements: the three
/// names always, an index when below `len`, nothing else.
pub fn collection_has(key: &str, len: usize) -> (r: bool)
    ensures
        r == match collection_key_spec(key@) {
            CollectionKey::Index(i) => i < len,
            CollectionKey::Other => false,
            _ => true,
        },
{
    match collection_key(key) {
        CollectionKey::Index(i) => i < len,
        CollectionKey::Other => false,
        _ => true,
    }
}


/// What a live `HTMLCollection` re-runs on every access.
pub enum LiveQuery {
    /// `getElementsByTagName(tag)`.
    Tag(String),
    /// `getElementsByClassName(class_name)`.
    Class(String),
}

/// The found elements of a search, nothing when it failed.
pub open spec fn found_or_empty(r: Result<Seq<usize>, SearchError>) -> Seq<usize> {
    match r {
        Ok(found) => found,
        Err(_) => seq![],
    }
}

/// The elements a live collection holds at this moment: its query re-run,
/// nothing when the search fails.
pub open spec fn live_spec(t: NodeTree, root: usize, q: LiveQuery, include_start: bool) -> Seq<usize> {
    match q {
        LiveQuery::Tag(tag) => found_or_empty(search_spec(t, root, include_start, Criterion::Tag(tag@))),
        LiveQuery::Class(c) => if token_seq(c@).len() == 0 {
            seq![]
        } else {
            found_or_empty(search_spec(t, root, include_start, Criterion::Classes(token_seq(c@))))
        },
    }
}

/// Re-runs a live collection's query.
pub fn resolve_live(t: &NodeTree, root: usize, q: &LiveQuery, include_start: bool) -> (r: Vec<usize>)
    ensures
        r@ == live_spec(*t, root, *q, include_start),
{
    let found = match q {
        LiveQuery::Tag(tag) => elements_by_tag_name(t, root, tag.as_str(), include_start),
        LiveQuery::Class(c) => elements_by_class_name(t, root, c.as_str(), include_start),
    };
    match found {
        Ok(v) => v,
        Err(_) => Vec::new(),
    }
}


proof fn lemma_scan_results_meet(
    t: NodeTree,
    start: usize,
    include_start: bool,
    c: Criterion,
    s: Seq<usize>,
)
    ensures
        scan(t, start, include_start, c, s) matches Ok(found) ==> found.len() <= MAX_SEARCH_RESULTS
            && found.len() <= s.len() && forall|i: int|
            0 <= i < found.len() ==> meets(t, start, include_start, c, #[trigger] found[i])
                && s.contains(found[i]),
    decreases s.len(),
{
    if s.len() > 0 {
        lemma_scan_results_meet(t, start, include_start, c, s.drop_last());
        if let Ok(found) = scan(t, start, include_start, c, s) {
            let front = scan(t, start, include_start, c, s.drop_last())->Ok_0;
            assert forall|i: int| 0 <= i < found.len() implies meets(
                t,
                start,
                include_start,
                c,
                #[trigger] found[i],
            ) && s.contains(found[i]) by {
                if i < front.len() {
                    assert(s.drop_last().contains(front[i]));
                    let k = choose|k: int| 0 <= k < s.drop_last().len() && s.drop_last()[k] == front[i];
                    assert(s[k] == front[i]);
                } else {
                    assert(s[s.len() - 1] == found[i]);
                }
            }
        }
    }
}

/// Every element a successful search returns meets the criterion, was
/// visited by the walk from `start`, and there are at most 2048 of them.
pub proof fn law_search_results_meet(t: NodeTree, start: usize, include_start: bool, c: Criterion)
    ensures
        search_spec(t, start, include_start, c) matches Ok(found) ==> found.len()
            <= MAX_SEARCH_RESULTS && forall|i: int|
            0 <= i < found.len() ==> meets(t, start, include_start, c, #[trigger] found[i])
                && walk(t, seq![start], (MAX_SEARCH_VISITS + 1) as nat).contains(found[i]),
{
    lemma_scan_results_meet(
        t,
        start,
        include_start,
        c,
        walk(t, seq![start], (MAX_SEARCH_VISITS + 1) as nat),
    );
}


proof fn lemma_filter_listed_members(
    t: NodeTree,
    start: usize,
    s: Seq<usize>,
    tags: Seq<Seq<char>>,
    cap: nat,
)
    ensures
        forall|i: int|
            0 <= i < filter_listed(t, start, s, tags, cap).len() ==> tag_listed(
                t,
                start,
                #[trigger] filter_listed(t, start, s, tags, cap)[i],
                tags,
            ),
        filter_listed(t, start, s, tags, cap).len() <= cap + 1,
    decreases s.len(),
{
    if s.len() > 0 {
        lemma_filter_listed_members(t, start, s.drop_last(), tags, cap);
    }
}

/// Every node `descendants_matching_tags` returns is an element other than
/// `start` whose tag is one of `tags`, and at most one more than
/// `max_results` are returned.
pub proof fn law_descendants_are_listed(t: NodeTree, start: usize, tags: Seq<Seq<char>>, max_results: nat)
    ensures
        forall|i: int|
            0 <= i < filter_listed(t, start, walk(t, seq![start], MAX_SEARCH_VISITS as nat), tags, max_results).len()
                ==> tag_listed(
                t,
                start,
                #[trigger] filter_listed(
                    t,
                    start,
                    walk(t, seq![start], MAX_SEARCH_VISITS as nat),
                    tags,
                    max_results,
                )[i],
                tags,
            ),
        filter_listed(t, start, walk(t, seq![start], MAX_SEARCH_VISITS as nat), tags, max_results).len()
            <= max_results + 1,
{
    lemma_filter_listed_members(t, start, walk(t, seq![start], MAX_SEARCH_VISITS as nat), tags, max_results);
}

proof fn lemma_ancestor_labels_are_labels(t: NodeTree, node: usize, k: nat)
    ensures
        forall|i: int|
            0 <= i < ancestor_labels(t, node, k).len() ==> tag_of(t, #[trigger] ancestor_labels(t, node, k)[i])
                == Some("label"@),
    decreases k,
{
    if k > 0 {
        lemma_ancestor_labels_are_labels(t, node, (k - 1) as nat);
    }
}

/// Every node `labels` returns is a `<label>` element.
pub proof fn law_labels_are_labels(t: NodeTree, root: usize, id: usize)
    ensures
        forall|i: int|
            0 <= i < labels_spec(t, root, id).len() ==> tag_of(t, #[trigger] labels_spec(t, root, id)[i])
                == Some("label"@),
{
    let by_for = labels_by_for_spec(t, root, id);
    let anc = ancestor_labels(t, id, t.nodes@.len());
    lemma_ancestor_labels_are_labels(t, id, t.nodes@.len());
    law_search_results_meet(t, root, false, Criterion::Tag("label"@));
    assert forall|i: int| 0 <= i < by_for.len() implies tag_of(t, #[trigger] by_for[i]) == Some(
        "label"@,
    ) by {
        let v = attr_of(t, id, "id"@)->0;
        let found = search_spec(t, root, false, Criterion::Tag("label"@))->Ok_0;
        let pred = |l: usize| attr_of(t, l, "for"@) == Some(v);
        assert(by_for == found.filter(pred));
        assert(found.filter(pred).contains(by_for[i]));
        found.lemma_filter_contains_rev(pred, by_for[i]);
        let j = choose|j: int| 0 <= j < found.len() && found[j] == by_for[i];
        assert(meets(t, root, false, Criterion::Tag("label"@), found[j]));
        reveal_strlit("*");
        reveal_strlit("label");
    }
    assert forall|i: int| 0 <= i < labels_spec(t, root, id).len() implies tag_of(
        t,
        #[trigger] labels_spec(t, root, id)[i],
    ) == Some("label"@) by {
        if i < by_for.len() {
            assert(labels_spec(t, root, id)[i] == by_for[i]);
        } else {
            assert(labels_spec(t, root, id)[i] == anc[i - by_for.len()]);
        }
    }
}


/// Every `<label>` on the way up from `node` within the first `k` steps is
/// among `ancestor_labels(t, node, k)`.
proof fn lemma_ancestor_labels_complete(t: NodeTree, node: usize, k: nat, j: nat, a: usize)
    requires
        1 <= j <= k,
        chain_node(t, node, j) == Some(a),
        tag_of(t, a) == Some("label"@),
    ensures
        ancestor_labels(t, node, k).contains(a),
    decreases k,
{
    if j == k {
        let front = ancestor_labels(t, node, (k - 1) as nat);
        assert(ancestor_labels(t, node, k) == front.push(a));
        assert(ancestor_labels(t, node, k)[front.len() as int] == a);
    } else {
        lemma_ancestor_labels_complete(t, node, (k - 1) as nat, j, a);
        let front = ancestor_labels(t, node, (k - 1) as nat);
        let i = choose|i: int| 0 <= i < front.len() && front[i] == a;
        match chain_node(t, node, k) {
            Some(b) => if tag_of(t, b) == Some("label"@) {
                assert(ancestor_labels(t, node, k)[i] == a);
            },
            None => {},
        }
    }
}

/// A control's labels include every `<label>` element that wraps it, at any
/// depth, whatever the control's `id` (and whether or not some label names
/// it by `for`): each ancestor reached by following parents at most as many
/// times as the tree has nodes, when it is a `<label>`, is among them.
pub proof fn law_wrapping_labels_are_labels(t: NodeTree, root: usize, id: usize, k: nat, a: usize)
    requires
        1 <= k <= t.nodes@.len(),
        chain_node(t, id, k) == Some(a),
        tag_of(t, a) == Some("label"@),
    ensures
        labels_spec(t, root, id).contains(a),
{
    let by_for = labels_by_for_spec(t, root, id);
    let anc = ancestor_labels(t, id, t.nodes@.len());
    lemma_ancestor_labels_complete(t, id, t.nodes@.len(), k, a);
    let i = choose|i: int| 0 <= i < anc.len() && anc[i] == a;
    assert(labels_spec(t, root, id)[by_for.len() + i] == a);
}

/// A control with a non-empty `id` is labelled by every `<label>` the
/// document search finds whose `for` equals that id, and these come before
/// any wrapping label, in the order the search found them.
pub proof fn law_for_labels_are_labels(
    t: NodeTree,
    root: usize,
    id: usize,
    found: Seq<usize>,
    v: Seq<char>,
    i: int,
    j: int,
)
    requires
        search_spec(t, root, false, Criterion::Tag("label"@)) == Ok::<Seq<usize>, SearchError>(found),
        attr_of(t, id, "id"@) == Some(v),
        v.len() > 0,
        0 <= i < found.len(),
        0 <= j < found.len(),
        attr_of(t, found[i], "for"@) == Some(v),
        attr_of(t, found[j], "for"@) == Some(v),
    ensures
        exists|p: int|
            0 <= p < labels_by_for_spec(t, root, id).len() && labels_spec(t, root, id)[p] == found[i],
        i < j ==> exists|p: int, q: int|
            0 <= p < q < labels_by_for_spec(t, root, id).len() && labels_spec(t, root, id)[p]
                == found[i] && labels_spec(t, root, id)[q] == found[j],
{
    reveal(Seq::filter);
    let pred = |l: usize| attr_of(t, l, "for"@) == Some(v);
    let f = found.filter(pred);
    assert(labels_by_for_spec(t, root, id) == f);
    found.filter_lemma(pred);
    assert(f.contains(found[i]));
    let p0 = choose|p: int| 0 <= p < f.len() && f[p] == found[i];
    assert(labels_spec(t, root, id)[p0] == f[p0]);
    if i >= j {
        return;
    }
    lemma_filter_keeps_order(found, pred, i, j);
    let (p, q) = choose|p: int, q: int| 0 <= p < q < f.len() && f[p] == found[i] && f[q] == found[j];
    assert(labels_by_for_spec(t, root, id) == f);
    assert(labels_spec(t, root, id)[p] == f[p]);
    assert(labels_spec(t, root, id)[q] == f[q]);
}

/// Filtering keeps two kept elements in their order.
proof fn lemma_filter_keeps_order(s: Seq<usize>, pred: spec_fn(usize) -> bool, i: int, j: int)
    requires
        0 <= i < j < s.len(),
        pred(s[i]),
        pred(s[j]),
    ensures
        exists|p: int, q: int|
            0 <= p < q < s.filter(pred).len() && s.filter(pred)[p] == s[i] && s.filter(pred)[q]
                == s[j],
    decreases s.len(),
{
    reveal(Seq::filter);
    let front = s.drop_last();
    if j < s.len() - 1 {
        lemma_filter_keeps_order(front, pred, i, j);
        let (p, q) = choose|p: int, q: int|
            0 <= p < q < front.filter(pred).len() && front.filter(pred)[p] == front[i]
                && front.filter(pred)[q] == front[j];
        assert(s.filter(pred)[p] == s[i]);
        assert(s.filter(pred)[q] == s[j]);
    } else {
        front.filter_lemma(pred);
        assert(front.filter(pred).contains(front[i]));
        let p = choose|p: int| 0 <= p < front.filter(pred).len() && front.filter(pred)[p] == front[i];
        let q = front.filter(pred).len() as int;
        assert(s.filter(pred)[p] == s[i]);
        assert(s.filter(pred)[q] == s[j]);
    }
}

/// Whether `selector` may be matched at all: non-empty and at most 1024
/// bytes.
pub fn selector_fits(selector: &str) -> (r: bool)
    ensures
        r == (selector@.len() > 0 && utf8_len(selector@) <= MAX_SELECTOR_LENGTH),
{
    !selector.is_empty() && byte_len(selector) <= MAX_SELECTOR_LENGTH
}

/// `querySelectorAll` from `start` once the selector was matched against
/// every element: `matched[i]` is whether it matches node `i` (`None` when
/// the node's ancestry could not be described).
pub fn elements_matching(t: &NodeTree, start: usize, include_start: bool, matched: Vec<Option<bool>>) -> (r:
    Result<Vec<usize>, SearchError>)
    ensures
        match r {
            Ok(v) => search_spec(*t, start, include_start, Criterion::Selector(matched@)) == Ok::<
                Seq<usize>,
                SearchError,
            >(v@),
            Err(e) => search_spec(*t, start, include_start, Criterion::Selector(matched@)) == Err::<
                Seq<usize>,
                SearchError,
            >(e),
        },
{
    search(t, start, include_start, &Wanted::Selector(matched))
}

/// `element.matches(selector)` given the per-node matches: a node that is
/// not an element never matches; an element whose match is unknown fails.
pub open spec fn match_spec(t: NodeTree, m: Seq<Option<bool>>, id: usize) -> Result<bool, SearchError> {
    if tag_of(t, id) is None {
        Ok(false)
    } else if !(id < m.len() && m[id as int] is Some) {
        Err(SearchError::InvalidAncestry)
    } else {
        Ok(m[id as int]->0)
    }
}

/// `element.matches(selector)`.
pub fn matches_selector(t: &NodeTree, id: usize, matched: &Vec<Option<bool>>) -> (r: Result<bool, SearchError>)
    ensures
        r == match_spec(*t, matched@, id),
{
    if id >= t.nodes.len() || t.nodes[id].element.is_none() {
        return Ok(false);
    }
    if id < matched.len() {
        match matched[id] {
            Some(b) => Ok(b),
            None => Err(SearchError::InvalidAncestry),
        }
    } else {
        Err(SearchError::InvalidAncestry)
    }
}

/// `closest(selector)` from `id`, trying at most `n` nodes up the parent
/// chain: the first that matches, `None` when the chain ends first.
pub open spec fn closest_spec(t: NodeTree, m: Seq<Option<bool>>, id: usize, n: nat) -> Result<
    Option<usize>,
    SearchError,
>
    decreases n,
{
    if n == 0 {
        Err(SearchError::TraversalLimit)
    } else {
        match match_spec(t, m, id) {
            Err(e) => Err(e),
            Ok(true) => Ok(Some(id)),
            Ok(false) => match parent_of(t, id) {
                None => Ok(None),
                Some(p) => closest_spec(t, m, p, (n - 1) as nat),
            },
        }
    }
}

/// `element.closest(selector)`: at most 4096 nodes are tried.
pub fn closest(t: &NodeTree, id: usize, matched: &Vec<Option<bool>>) -> (r: Result<Option<usize>, SearchError>)
    ensures
        r == closest_spec(*t, matched@, id, MAX_SEARCH_VISITS as nat),
{
    let mut current = id;
    let mut left: usize = MAX_SEARCH_VISITS;
    while left > 0
        invariant
            left <= MAX_SEARCH_VISITS,
            closest_spec(*t, matched@, id, MAX_SEARCH_VISITS as nat) == closest_spec(
                *t,
                matched@,
                current,
                left as nat,
            ),
        decreases left,
    {
        match matches_selector(t, current, matched) {
            Err(e) => {
                return Err(e);
            },
            Ok(true) => {
                return Ok(Some(current));
            },
            Ok(false) => {},
        }
        match t.parent(current) {
            None => {
                return Ok(None);
            },
            Some(p) => {
                current = p;
            },
        }
        left = left - 1;
    }
    Err(SearchError::TraversalLimit)
}

} // verus!
