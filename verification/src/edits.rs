//! The checks that guard tree edits (`appendChild`, `insertBefore`,
//! `removeChild`, `replaceChild`, `remove` and the `ParentNode`/`ChildNode`
//! methods taking node-or-string arguments): which edits are refused, and
//! why, before the document is touched.

use vstd::prelude::*;

use crate::limits::{MAX_CHILD_NODE_ARGS, MAX_HTML_LENGTH, MAX_TEXT_NODE_LENGTH};
use crate::text::{byte_len, utf8_len};
use crate::tree::{ancestor_or_self, chain_node, children_of, is_ancestor, parent_of, NodeTree};

verus! {

/// Why an edit was refused.
#[derive(Debug, Clone, Copy, PartialEq, Eq, Structural)]
pub enum EditError {
    /// A node involved is not (or no longer) in the document.
    Detached,
    /// The reference or old node is not a child of the target parent.
    NotAChild,
    /// The node to insert is the parent itself or one of its ancestors.
    AncestorInsert,
    /// The document root cannot be removed.
    RootRemoval,
    /// The document root cannot be replaced.
    RootReplacement,
    /// The node has no parent to insert under.
    NoParent,
    /// Markup longer than allowed.
    HtmlTooLong,
    /// More node-or-string arguments than allowed.
    TooManyArguments,
    /// A string argument longer than a text node may be.
    TextTooLong,
    /// An argument that is neither a node nor a string.
    NotANode,
}

/// Whether `id` is a node of the tree.
pub open spec fn present(t: NodeTree, id: usize) -> bool {
    id < t.nodes@.len()
}

/// `parent.appendChild(child)`.
pub open spec fn append_child_check(t: NodeTree, parent: usize, child: usize) -> Result<(), EditError> {
    if !present(t, parent) || !present(t, child) {
        Err(EditError::Detached)
    } else if ancestor_or_self(t, child, parent) {
        Err(EditError::AncestorInsert)
    } else {
        Ok(())
    }
}

/// `parent.insertBefore(new_node, reference)`.
pub open spec fn insert_before_check(t: NodeTree, parent: usize, new_node: usize, reference: usize) -> Result<
    (),
    EditError,
> {
    if !present(t, parent) || !present(t, new_node) || !present(t, reference) {
        Err(EditError::Detached)
    } else if parent_of(t, reference) != Some(parent) {
        Err(EditError::NotAChild)
    } else if ancestor_or_self(t, new_node, parent) {
        Err(EditError::AncestorInsert)
    } else {
        Ok(())
    }
}

/// `parent.removeChild(child)`.
pub open spec fn remove_child_check(t: NodeTree, parent: usize, child: usize) -> Result<(), EditError> {
    if !present(t, parent) || !present(t, child) {
        Err(EditError::Detached)
    } else if parent_of(t, child) != Some(parent) {
        Err(EditError::NotAChild)
    } else {
        Ok(())
    }
}

/// `parent.replaceChild(new_child, old_child)`.
pub open spec fn replace_child_check(t: NodeTree, parent: usize, new_child: usize, old_child: usize) -> Result<
    (),
    EditError,
> {
    if !present(t, parent) || !present(t, new_child) || !present(t, old_child) {
        Err(EditError::Detached)
    } else if ancestor_or_self(t, new_child, parent) {
        Err(EditError::AncestorInsert)
    } else if !children_of(t, parent).contains(old_child) {
        Err(EditError::NotAChild)
    } else {
        Ok(())
    }
}

fn present_exec(t: &NodeTree, id: usize) -> (r: bool)
    ensures
        r == present(*t, id),
{
    id < t.nodes.len()
}

/// `appendChild` refuses to move a node under itself or under any of its
/// descendants: when `child` is reached from `parent` by following parents
/// any number of times (at most as many as the tree has nodes, itself
/// included at zero steps), the append fails with `AncestorInsert`; and an
/// append that succeeds has no such path.
pub proof fn law_append_refuses_every_ancestor(t: NodeTree, parent: usize, child: usize, k: nat)
    requires
        present(t, parent),
        present(t, child),
    ensures
        k <= t.nodes@.len() && chain_node(t, parent, k) == Some(child) ==> append_child_check(
            t,
            parent,
            child,
        ) == Err::<(), EditError>(EditError::AncestorInsert),
        append_child_check(t, parent, child) is Ok ==> forall|j: nat|
            j <= t.nodes@.len() ==> #[trigger] chain_node(t, parent, j) != Some(child),
{
}

/// `insertBefore` and `replaceChild` refuse a new node that is the parent
/// or any ancestor of it in the same way: a successful check leaves no
/// parent path, of any length up to the tree's size, from `parent` to the
/// new node.
pub proof fn law_insert_and_replace_refuse_every_ancestor(
    t: NodeTree,
    parent: usize,
    new_node: usize,
    other: usize,
    k: nat,
)
    requires
        k <= t.nodes@.len(),
        chain_node(t, parent, k) == Some(new_node),
    ensures
        insert_before_check(t, parent, new_node, other) is Err,
        replace_child_check(t, parent, new_node, other) is Err,
        present(t, parent) && present(t, new_node) && present(t, other) ==> replace_child_check(
            t,
            parent,
            new_node,
            other,
        ) == Err::<(), EditError>(EditError::AncestorInsert),
        present(t, parent) && present(t, new_node) && present(t, other) && parent_of(t, other)
            == Some(parent) ==> insert_before_check(t, parent, new_node, other) == Err::<
            (),
            EditError,
        >(EditError::AncestorInsert),
{
}

/// Checks `parent.appendChild(child)`.
pub fn check_append_child(t: &NodeTree, parent: usize, child: usize) -> (r: Result<(), EditError>)
    ensures
        r == append_child_check(*t, parent, child),
{
    if !present_exec(t, parent) || !present_exec(t, child) {
        return Err(EditError::Detached);
    }
    if is_ancestor(t, child, parent) {
        return Err(EditError::AncestorInsert);
    }
    Ok(())
}

/// Checks `parent.insertBefore(new_node, reference)`.
pub fn check_insert_before(t: &NodeTree, parent: usize, new_node: usize, reference: usize) -> (r: Result<
    (),
    EditError,
>)
    ensures
        r == insert_before_check(*t, parent, new_node, reference),
{
    if !present_exec(t, parent) || !present_exec(t, new_node) || !present_exec(t, reference) {
        return Err(EditError::Detached);
    }
    if t.parent(reference) != Some(parent) {
        return Err(EditError::NotAChild);
    }
    if is_ancestor(t, new_node, parent) {
        return Err(EditError::AncestorInsert);
    }
    Ok(())
}

/// Checks `parent.removeChild(child)`.
pub fn check_remove_child(t: &NodeTree, parent: usize, child: usize) -> (r: Result<(), EditError>)
    ensures
        r == remove_child_check(*t, parent, child),
{
    if !present_exec(t, parent) || !present_exec(t, child) {
        return Err(EditError::Detached);
    }
    if t.parent(child) != Some(parent) {
        return Err(EditError::NotAChild);
    }
    Ok(())
}

/// Checks `parent.replaceChild(new_child, old_child)`.
pub fn check_replace_child(t: &NodeTree, parent: usize, new_child: usize, old_child: usize) -> (r: Result<
    (),
    EditError,
>)
    ensures
        r == replace_child_check(*t, parent, new_child, old_child),
{
    if !present_exec(t, parent) || !present_exec(t, new_child) || !present_exec(t, old_child) {
        return Err(EditError::Detached);
    }
    if is_ancestor(t, new_child, parent) {
        return Err(EditError::AncestorInsert);
    }
    let children = &t.nodes[parent].children;
    let n = children.len();
    let mut i: usize = 0;
    while i < n
        invariant
            n == children@.len(),
            i <= n,
            present(*t, parent) && present(*t, new_child) && present(*t, old_child),
            !ancestor_or_self(*t, new_child, parent),
            children@ == children_of(*t, parent),
            forall|j: int| 0 <= j < i ==> children@[j] != old_child,
        decreases n - i,
    {
        if children[i] == old_child {
            assert(children_of(*t, parent)[i as int] == old_child);
            return Ok(());
        }
        i = i + 1;
    }
    Err(EditError::NotAChild)
}

/// `node.remove()`: a node the tree lacks is left alone (`Ok(false)`),
/// the root is refused, any other node is unlinked (`Ok(true)`).
pub fn check_remove(t: &NodeTree, root: usize, id: usize) -> (r: Result<bool, EditError>)
    ensures
        !present(*t, id) ==> r == Ok::<bool, EditError>(false),
        present(*t, id) && id == root ==> r == Err::<bool, EditError>(EditError::RootRemoval),
        present(*t, id) && id != root ==> r == Ok::<bool, EditError>(true),
{
    if !present_exec(t, id) {
        Ok(false)
    } else if id == root {
        Err(EditError::RootRemoval)
    } else {
        Ok(true)
    }
}

/// One argument of `append`, `prepend`, `before`, `after` or
/// `replaceWith`.
pub enum ChildArg {
    /// A string, which becomes a new text node.
    Text(String),
    /// An existing node.
    Node(usize),
    /// Any other value.
    Other,
}

/// Whether argument `a` is acceptable on its own.
pub open spec fn arg_error(t: NodeTree, a: ChildArg) -> Option<EditError> {
    match a {
        ChildArg::Text(s) => if utf8_len(s@) > MAX_TEXT_NODE_LENGTH {
            Some(EditError::TextTooLong)
        } else {
            None
        },
        ChildArg::Node(id) => if present(t, id) {
            None
        } else {
            Some(EditError::Detached)
        },
        ChildArg::Other => Some(EditError::NotANode),
    }
}

/// The error of the first unacceptable argument, in order.
pub open spec fn first_arg_error(t: NodeTree, args: Seq<ChildArg>) -> Option<EditError>
    decreases args.len(),
{
    if args.len() == 0 {
        None
    } else {
        match first_arg_error(t, args.drop_last()) {
            Some(e) => Some(e),
            None => arg_error(t, args.last()),
        }
    }
}

/// Whether the arguments are accepted: at most 256 of them, and the
/// first unacceptable one, in order, decides the error.
pub open spec fn child_args_check(t: NodeTree, args: Seq<ChildArg>) -> Result<(), EditError> {
    if args.len() > MAX_CHILD_NODE_ARGS {
        Err(EditError::TooManyArguments)
    } else {
        match first_arg_error(t, args) {
            Some(e) => Err(e),
            None => Ok(()),
        }
    }
}

proof fn lemma_first_error_sticks(t: NodeTree, args: Seq<ChildArg>, k: int)
    requires
        0 <= k <= args.len(),
        first_arg_error(t, args.take(k)) is Some,
    ensures
        first_arg_error(t, args) == first_arg_error(t, args.take(k)),
    decreases args.len() - k,
{
    if k < args.len() {
        assert(args.take(k + 1).drop_last() =~= args.take(k));
        lemma_first_error_sticks(t, args, k + 1);
    } else {
        assert(args.take(k) =~= args);
    }
}

/// Checks the node-or-string arguments of `append` and its kin.
pub fn check_child_args(t: &NodeTree, args: &Vec<ChildArg>) -> (r: Result<(), EditError>)
    ensures
        r == child_args_check(*t, args@),
{
    if args.len() > MAX_CHILD_NODE_ARGS {
        return Err(EditError::TooManyArguments);
    }
    let n = args.len();
    let mut i: usize = 0;
    proof {
        assert(args@.take(0) =~= Seq::<ChildArg>::empty());
    }
    while i < n
        invariant
            n == args@.len(),
            n <= MAX_CHILD_NODE_ARGS,
            i <= n,
            first_arg_error(*t, args@.take(i as int)) == None::<EditError>,
        decreases n - i,
    {
        let e = match &args[i] {
            ChildArg::Text(s) => if byte_len(s.as_str()) > MAX_TEXT_NODE_LENGTH {
                Some(EditError::TextTooLong)
            } else {
                None
            },
            ChildArg::Node(id) => if present_exec(t, *id) {
                None
            } else {
                Some(EditError::Detached)
            },
            ChildArg::Other => Some(EditError::NotANode),
        };
        proof {
            assert(args@.take(i + 1).drop_last() =~= args@.take(i as int));
            assert(e == arg_error(*t, args@[i as int]));
            assert(first_arg_error(*t, args@.take(i + 1)) == e);
        }
        match e {
            Some(err) => {
                proof {
                    lemma_first_error_sticks(*t, args@, i + 1);
                }
                return Err(err);
            },
            None => {},
        }
        i = i + 1;
    }
    proof {
        assert(args@.take(n as int) =~= args@);
    }
    Ok(())
}

/// Checks that none of `nodes` is `target` or one of its ancestors (the
/// insertion step of `append` and its kin, after the arguments passed).
pub fn check_no_ancestor_inserted(t: &NodeTree, target: usize, nodes: &Vec<usize>) -> (r: Result<
    (),
    EditError,
>)
    ensures
        r is Ok <==> forall|i: int| 0 <= i < nodes@.len() ==> !ancestor_or_self(*t, #[trigger] nodes@[i], target),
        r is Err ==> r == Err::<(), EditError>(EditError::AncestorInsert),
{
    let n = nodes.len();
    let mut i: usize = 0;
    while i < n
        invariant
            n == nodes@.len(),
            i <= n,
            forall|j: int| 0 <= j < i ==> !ancestor_or_self(*t, #[trigger] nodes@[j], target),
        decreases n - i,
    {
        if is_ancestor(t, nodes[i], target) {
            return Err(EditError::AncestorInsert);
        }
        i = i + 1;
    }
    Ok(())
}


/// Checks markup handed to `innerHTML`, `outerHTML`,
/// `insertAdjacentHTML` or `DOMParser`: at most 65536 bytes.
pub fn check_html_length(html: &str) -> (r: Result<(), EditError>)
    ensures
        r == if utf8_len(html@) > MAX_HTML_LENGTH {
            Err::<(), EditError>(EditError::HtmlTooLong)
        } else {
            Ok(())
        },
{
    if byte_len(html) > MAX_HTML_LENGTH {
        Err(EditError::HtmlTooLong)
    } else {
        Ok(())
    }
}

/// Checks setting `outerHTML` on `id`: the node must be in the document,
/// not be the root, and have a parent.
pub fn check_outer_html_target(t: &NodeTree, root: usize, id: usize) -> (r: Result<(), EditError>)
    ensures
        r == if !present(*t, id) {
            Err::<(), EditError>(EditError::Detached)
        } else if id == root {
            Err(EditError::RootReplacement)
        } else if parent_of(*t, id) is None {
            Err(EditError::NoParent)
        } else {
            Ok(())
        },
{
    if !present_exec(t, id) {
        Err(EditError::Detached)
    } else if id == root {
        Err(EditError::RootReplacement)
    } else if t.parent(id).is_none() {
        Err(EditError::NoParent)
    } else {
        Ok(())
    }
}

} // verus!
