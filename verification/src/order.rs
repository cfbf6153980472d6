//! Resolution keeps the order of members: where the documents it reads
//! hold their members by ascending name, so does the document it makes.

use crate::json::canonical;
use crate::json::in_order;
use crate::json::members_of_object_in_order;
use crate::json::object_in_order;
use crate::json::position_from;
use crate::json::position_is_in_range;
use crate::json::with_keeps_canonical;
use crate::json::without_keeps_canonical;
use crate::json::Members;
use crate::json::Tree;
use crate::pointer::follow;
use crate::pointer::pointer_target;
use crate::pointer::step;
use crate::pointer::token_end;
use crate::pointer::unescape;
use crate::text::precedes;
use crate::walk::descend;
use crate::walk::effective_base;
use crate::walk::find_target;
use crate::walk::ref_name;
use crate::walk::reference_of;
use crate::walk::resolve;
use crate::walk::resolve_items;
use crate::walk::resolve_members;
use crate::walk::siblings;
use crate::walk::splice;
use crate::walk::Context;
use vstd::prelude::*;

verus! {

/// What a token names under a node in order is in order.
pub proof fn step_keeps_order(node: Tree, token: Seq<char>)
    requires
        canonical(node),
        step(node, token) is Some,
    ensures
        canonical(step(node, token)->Some_0),
{
    match node {
        Tree::Object(members) => {
            position_is_in_range(members, token, 0);
            let p = position_from(members, token, 0);
            assert(Tree::Object(members)->Object_0 == members);
            let _ = members[p];
        },
        Tree::Array(items) => {
            assert(Tree::Array(items)->Array_0 == items);
        },
        _ => {},
    }
}

proof fn follow_keeps_order(node: Tree, text: Seq<char>, start: int)
    requires
        canonical(node),
        follow(node, text, start) is Some,
    ensures
        canonical(follow(node, text, start)->Some_0),
    decreases text.len() - start,
{
    let end = token_end(text, start);
    let token = unescape(text.subrange(start, end));
    step_keeps_order(node, token);
    if end < text.len() {
        follow_keeps_order(step(node, token)->Some_0, text, end + 1);
    }
}

/// What a pointer names in a document in order is in order.
pub proof fn pointer_keeps_order(document: Tree, text: Seq<char>)
    requires
        canonical(document),
        pointer_target(document, text) is Some,
    ensures
        canonical(pointer_target(document, text)->Some_0),
{
    if text.len() > 0 {
        follow_keeps_order(document, text, 1);
    }
}

/// What stands beside the reference of a node in order is in order.
pub proof fn siblings_keep_order(node: Tree)
    requires
        canonical(node),
    ensures
        canonical(siblings(node)),
{
    match node {
        Tree::Object(members) => {
            without_keeps_canonical(members, ref_name());
        },
        _ => {},
    }
}

/// Keeping siblings in order in a node in order gives a node in order.
pub proof fn splice_keeps_order(resolved: Tree, keep: Option<Seq<char>>, beside: Tree)
    requires
        canonical(resolved),
        canonical(beside),
    ensures
        canonical(splice(resolved, keep, beside)),
{
    match (resolved, keep) {
        (Tree::Object(members), Some(name)) => {
            with_keeps_canonical(members, name, beside);
        },
        _ => {},
    }
}

/// Whether every cached document is in order.
pub open spec fn documents_in_order(context: Context) -> bool {
    forall|identifier: Seq<char>| #[trigger]
        context.documents.contains_key(identifier) ==> canonical(
            context.documents[identifier],
        )
}

/// Caching a document in order keeps the cached documents in order.
pub proof fn caching_keeps_order(context: Context, identifier: Seq<char>, document: Tree)
    requires
        documents_in_order(context),
        canonical(document),
    ensures
        documents_in_order(
            Context { documents: context.documents.insert(identifier, document), keep: context.keep },
        ),
{
    let cached = context.documents.insert(identifier, document);
    assert forall|other: Seq<char>| #[trigger] cached.contains_key(other) implies canonical(
        cached[other],
    ) by {
        if other != identifier {
            assert(context.documents.contains_key(other));
        }
    }
}

/// Resolution keeps the order: where the cached documents and the document
/// to resolve are in order, so is the resolved document.
pub proof fn resolution_keeps_order(
    context: Context,
    node: Tree,
    base: Seq<char>,
    trail: Seq<Seq<char>>,
    depth: nat,
)
    requires
        documents_in_order(context),
        canonical(node),
        resolve(context, node, base, trail, depth) is Ok,
    ensures
        canonical(resolve(context, node, base, trail, depth)->Ok_0),
    decreases depth, node, 1nat,
{
    let here = effective_base(node, base);
    match reference_of(node) {
        None => {
            assert(resolve(context, node, base, trail, depth) == descend(
                context,
                node,
                true,
                here,
                trail,
                depth,
            ));
            descent_keeps_order(context, node, true, here, trail, depth);
        },
        Some(reference) => match find_target(context, here, reference) {
            Err(halt) => {},
            Ok((place, target)) => {
                siblings_keep_order(node);
                if !trail.contains(place.full) {
                    let longer = trail.push(place.full);
                    let less = (depth - 1) as nat;
                    assert(context.documents.contains_key(place.document));
                    match place.fragment {
                        Some(fragment) => {
                            pointer_keeps_order(context.documents[place.document], fragment);
                        },
                        None => {},
                    }
                    resolution_keeps_order(context, target, place.document, longer, less);
                    let resolved = resolve(context, target, place.document, longer, less)->Ok_0;
                    splice_keeps_order(resolved, context.keep, siblings(node));
                    let spliced = splice(resolved, context.keep, siblings(node));
                    assert(resolve(context, node, base, trail, depth) == descend(
                        context,
                        spliced,
                        false,
                        here,
                        trail,
                        less,
                    ));
                    descent_keeps_order(context, spliced, false, here, trail, less);
                }
            },
        },
    }
}

proof fn descent_keeps_order(
    context: Context,
    node: Tree,
    strip: bool,
    base: Seq<char>,
    trail: Seq<Seq<char>>,
    depth: nat,
)
    requires
        documents_in_order(context),
        canonical(node),
        descend(context, node, strip, base, trail, depth) is Ok,
    ensures
        canonical(descend(context, node, strip, base, trail, depth)->Ok_0),
    decreases depth, node, 0nat,
{
    match node {
        Tree::Object(members) => {
            members_of_object_in_order(members);
            members_keep_order(context, members, members.len(), strip, base, trail, depth);
            let resolved = resolve_members(
                context,
                members,
                members.len(),
                strip,
                base,
                trail,
                depth,
            )->Ok_0;
            object_in_order(resolved);
        },
        Tree::Array(items) => {
            items_keep_order(context, items, items.len(), base, trail, depth);
            let resolved = resolve_items(context, items, items.len(), base, trail, depth)->Ok_0;
            assert(Tree::Array(resolved)->Array_0 == resolved);
        },
        _ => {},
    }
}

proof fn members_keep_order(
    context: Context,
    members: Members,
    n: nat,
    strip: bool,
    base: Seq<char>,
    trail: Seq<Seq<char>>,
    depth: nat,
)
    requires
        n <= members.len(),
        documents_in_order(context),
        in_order(members),
        forall|i: int| 0 <= i < members.len() ==> canonical((#[trigger] members[i]).1),
        resolve_members(context, members, n, strip, base, trail, depth) is Ok,
    ensures
        ({
            let resolved = resolve_members(context, members, n, strip, base, trail, depth)->Ok_0;
            &&& in_order(resolved)
            &&& forall|j: int|
                0 <= j < resolved.len() ==> canonical((#[trigger] resolved[j]).1) && exists|k: int|
                    0 <= k < n && resolved[j].0 == (#[trigger] members[k]).0
        }),
    decreases depth, members, n,
{
    if n > 0 {
        let fewer = (n - 1) as nat;
        members_keep_order(context, members, fewer, strip, base, trail, depth);
        let before = resolve_members(context, members, fewer, strip, base, trail, depth)->Ok_0;
        let now = resolve_members(context, members, n, strip, base, trail, depth)->Ok_0;
        let last = members[n - 1];
        if !(strip && last.0 == ref_name()) {
            resolution_keeps_order(context, last.1, base, trail, depth);
            assert forall|j: int| 0 <= j < now.len() implies canonical((#[trigger] now[j]).1)
                && exists|k: int| 0 <= k < n && now[j].0 == (#[trigger] members[k]).0 by {
                if j < before.len() {
                    assert(now[j] == before[j]);
                    let k = choose|k: int|
                        0 <= k < fewer && before[j].0 == (#[trigger] members[k]).0;
                    assert(now[j].0 == members[k].0);
                } else {
                    assert(now[j].0 == members[n - 1].0);
                }
            }
            assert forall|i: int, j: int| 0 <= i < j < now.len() implies precedes(
                (#[trigger] now[i]).0,
                (#[trigger] now[j]).0,
            ) by {
                if j < before.len() {
                    assert(now[i] == before[i] && now[j] == before[j]);
                } else {
                    assert(now[i] == before[i]);
                    let k = choose|k: int|
                        0 <= k < fewer && before[i].0 == (#[trigger] members[k]).0;
                    assert(precedes(members[k].0, members[n - 1].0));
                }
            }
        } else {
            assert forall|j: int| 0 <= j < now.len() implies canonical((#[trigger] now[j]).1)
                && exists|k: int| 0 <= k < n && now[j].0 == (#[trigger] members[k]).0 by {
                let k = choose|k: int| 0 <= k < fewer && before[j].0 == (#[trigger] members[k]).0;
                assert(now[j].0 == members[k].0);
            }
        }
    }
}

proof fn items_keep_order(
    context: Context,
    items: Seq<Tree>,
    n: nat,
    base: Seq<char>,
    trail: Seq<Seq<char>>,
    depth: nat,
)
    requires
        n <= items.len(),
        documents_in_order(context),
        canonical(Tree::Array(items)),
        resolve_items(context, items, n, base, trail, depth) is Ok,
    ensures
        ({
            let resolved = resolve_items(context, items, n, base, trail, depth)->Ok_0;
            forall|j: int| 0 <= j < resolved.len() ==> canonical(#[trigger] resolved[j])
        }),
    decreases depth, items, n,
{
    if n > 0 {
        items_keep_order(context, items, (n - 1) as nat, base, trail, depth);
        assert(Tree::Array(items)->Array_0 == items);
        resolution_keeps_order(context, items[n - 1], base, trail, depth);
    }
}

} // verus!
