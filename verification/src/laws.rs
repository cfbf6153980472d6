//! Laws of resolution, proved over the models of documents.

use crate::error::ErrorKind;
use crate::json::lookup;
use crate::json::lookup_after_with;
use crate::json::names_avoid;
use crate::json::position_from;
use crate::json::position_goes_by_names;
use crate::json::position_is_in_range;
use crate::json::position_of_absent_name;
use crate::json::with;
use crate::json::with_adds_one_member;
use crate::json::with_avoids;
use crate::json::without_avoids;
use crate::json::Members;
use crate::json::Tree;
use crate::location::Place;
use crate::outcome::Halt;
use crate::walk::descend;
use crate::walk::effective_base;
use crate::walk::find_target;
use crate::walk::id_name;
use crate::walk::ref_name;
use crate::walk::reference_of;
use crate::walk::resolve;
use crate::walk::resolve_items;
use crate::walk::resolve_members;
use crate::walk::siblings;
use crate::walk::splice;
use crate::walk::Context;
use vstd::prelude::*;

verus! {

/// Whether no member anywhere in `node` is named `$ref`.
pub open spec fn ref_free(node: Tree) -> bool
    decreases node,
{
    match node {
        Tree::Object(members) => forall|i: int|
            0 <= i < members.len() ==> (#[trigger] members[i]).0 != ref_name() && ref_free(
                members[i].1,
            ),
        Tree::Array(items) => forall|i: int| 0 <= i < items.len() ==> ref_free(#[trigger] items[i]),
        _ => true,
    }
}

/// A document without references resolves to itself: whatever the cache
/// holds, whatever the base identifier, the trail and the depth left.
pub proof fn resolution_without_references(
    context: Context,
    node: Tree,
    base: Seq<char>,
    trail: Seq<Seq<char>>,
    depth: nat,
)
    requires
        ref_free(node),
    ensures
        resolve(context, node, base, trail, depth) == Ok::<Tree, Halt>(node),
    decreases node, 1nat,
{
    match node {
        Tree::Object(members) => {
            position_of_absent_name(members, ref_name(), 0);
            assert(reference_of(node) is None);
        },
        _ => {},
    }
    descent_without_references(
        context,
        node,
        true,
        effective_base(node, base),
        trail,
        depth,
    );
}

/// Resolving what stands under a document without references leaves the
/// document as it is.
pub proof fn descent_without_references(
    context: Context,
    node: Tree,
    strip: bool,
    base: Seq<char>,
    trail: Seq<Seq<char>>,
    depth: nat,
)
    requires
        ref_free(node),
    ensures
        descend(context, node, strip, base, trail, depth) == Ok::<Tree, Halt>(node),
    decreases node, 0nat,
{
    match node {
        Tree::Object(members) => {
            members_without_references(context, members, members.len(), strip, base, trail, depth);
            assert(members.take(members.len() as int) == members);
        },
        Tree::Array(items) => {
            items_without_references(context, items, items.len(), base, trail, depth);
            assert(items.take(items.len() as int) == items);
        },
        _ => {},
    }
}

proof fn members_without_references(
    context: Context,
    members: Members,
    n: nat,
    strip: bool,
    base: Seq<char>,
    trail: Seq<Seq<char>>,
    depth: nat,
)
    requires
        n <= members.len(),
        ref_free(Tree::Object(members)),
    ensures
        resolve_members(context, members, n, strip, base, trail, depth) == Ok::<Members, Halt>(
            members.take(n as int),
        ),
    decreases members, n,
{
    if n > 0 {
        members_without_references(context, members, (n - 1) as nat, strip, base, trail, depth);
        assert(Tree::Object(members)->Object_0 == members);
        assert(members[n - 1].0 != ref_name());
        resolution_without_references(context, members[n - 1].1, base, trail, depth);
        assert(members.take(n as int) == members.take(n - 1).push(members[n - 1]));
    } else {
        assert(members.take(0) == Seq::<(Seq<char>, Tree)>::empty());
    }
}

proof fn items_without_references(
    context: Context,
    items: Seq<Tree>,
    n: nat,
    base: Seq<char>,
    trail: Seq<Seq<char>>,
    depth: nat,
)
    requires
        n <= items.len(),
        ref_free(Tree::Array(items)),
    ensures
        resolve_items(context, items, n, base, trail, depth) == Ok::<Seq<Tree>, Halt>(
            items.take(n as int),
        ),
    decreases items, n,
{
    if n > 0 {
        items_without_references(context, items, (n - 1) as nat, base, trail, depth);
        assert(Tree::Array(items)->Array_0 == items);
        resolution_without_references(context, items[n - 1], base, trail, depth);
        assert(items.take(n as int) == items.take(n - 1).push(items[n - 1]));
    } else {
        assert(items.take(0) == Seq::<Tree>::empty());
    }
}

/// A node's own identifier replaces the inherited base: an object whose
/// `$id` is a string resolves in the same way under every base identifier,
/// and its references are resolved against that string.
pub proof fn own_identifier_replaces_base(
    context: Context,
    node: Tree,
    own: Seq<char>,
    first: Seq<char>,
    second: Seq<char>,
    trail: Seq<Seq<char>>,
    depth: nat,
)
    requires
        node matches Tree::Object(members) && lookup(members, id_name()) == Some(
            Tree::String(own),
        ),
    ensures
        effective_base(node, first) == own,
        resolve(context, node, first, trail, depth) == resolve(context, node, second, trail, depth),
        resolve(context, node, first, trail, depth) == resolve(context, node, own, trail, depth),
{
}

/// A resolution never asks for a document that the cache holds.
pub proof fn asks_only_for_missing_documents(
    context: Context,
    node: Tree,
    base: Seq<char>,
    trail: Seq<Seq<char>>,
    depth: nat,
)
    ensures
        resolve(context, node, base, trail, depth) matches Err(Halt::Load(need))
            ==> !context.documents.contains_key(need.identifier),
    decreases depth, node, 1nat,
{
    let here = effective_base(node, base);
    match reference_of(node) {
        None => {
            descent_asks_only_for_missing_documents(context, node, true, here, trail, depth);
        },
        Some(reference) => match find_target(context, here, reference) {
            Err(halt) => {},
            Ok((place, target)) => {
                if !trail.contains(place.full) && depth > 0 {
                    let longer = trail.push(place.full);
                    let less = (depth - 1) as nat;
                    asks_only_for_missing_documents(context, target, place.document, longer, less);
                    match resolve(context, target, place.document, longer, less) {
                        Err(halt) => {},
                        Ok(resolved) => {
                            descent_asks_only_for_missing_documents(
                                context,
                                splice(resolved, context.keep, siblings(node)),
                                false,
                                here,
                                trail,
                                less,
                            );
                        },
                    }
                }
            },
        },
    }
}

proof fn descent_asks_only_for_missing_documents(
    context: Context,
    node: Tree,
    strip: bool,
    base: Seq<char>,
    trail: Seq<Seq<char>>,
    depth: nat,
)
    ensures
        descend(context, node, strip, base, trail, depth) matches Err(Halt::Load(need))
            ==> !context.documents.contains_key(need.identifier),
    decreases depth, node, 0nat,
{
    match node {
        Tree::Object(members) => {
            members_ask_only_for_missing_documents(
                context,
                members,
                members.len(),
                strip,
                base,
                trail,
                depth,
            );
        },
        Tree::Array(items) => {
            items_ask_only_for_missing_documents(context, items, items.len(), base, trail, depth);
        },
        _ => {},
    }
}

proof fn members_ask_only_for_missing_documents(
    context: Context,
    members: Members,
    n: nat,
    strip: bool,
    base: Seq<char>,
    trail: Seq<Seq<char>>,
    depth: nat,
)
    ensures
        resolve_members(context, members, n, strip, base, trail, depth) matches Err(
            Halt::Load(need),
        ) ==> !context.documents.contains_key(need.identifier),
    decreases depth, members, n,
{
    if 0 < n <= members.len() {
        members_ask_only_for_missing_documents(
            context,
            members,
            (n - 1) as nat,
            strip,
            base,
            trail,
            depth,
        );
        asks_only_for_missing_documents(context, members[n - 1].1, base, trail, depth);
    }
}

proof fn items_ask_only_for_missing_documents(
    context: Context,
    items: Seq<Tree>,
    n: nat,
    base: Seq<char>,
    trail: Seq<Seq<char>>,
    depth: nat,
)
    ensures
        resolve_items(context, items, n, base, trail, depth) matches Err(Halt::Load(need))
            ==> !context.documents.contains_key(need.identifier),
    decreases depth, items, n,
{
    if 0 < n <= items.len() {
        items_ask_only_for_missing_documents(context, items, (n - 1) as nat, base, trail, depth);
        asks_only_for_missing_documents(context, items[n - 1], base, trail, depth);
    }
}

/// Whether `node` has no member named `$ref` directly under it.
pub open spec fn holds_no_reference(node: Tree) -> bool {
    node matches Tree::Object(members) ==> names_avoid(members, ref_name())
}

/// Resolved members keep their names and their order: where none is left
/// out, each resolved value is the resolution of the value in its place.
pub proof fn resolved_members_are_in_place(
    context: Context,
    members: Members,
    n: nat,
    base: Seq<char>,
    trail: Seq<Seq<char>>,
    depth: nat,
)
    requires
        n <= members.len(),
        resolve_members(context, members, n, false, base, trail, depth) is Ok,
    ensures
        ({
            let resolved = resolve_members(context, members, n, false, base, trail, depth)->Ok_0;
            &&& resolved.len() == n
            &&& forall|i: int|
                0 <= i < n ==> (#[trigger] resolved[i]).0 == members[i].0 && resolve(
                    context,
                    members[i].1,
                    base,
                    trail,
                    depth,
                ) == Ok::<Tree, Halt>(resolved[i].1)
        }),
    decreases n,
{
    if n > 0 {
        resolved_members_are_in_place(context, members, (n - 1) as nat, base, trail, depth);
    }
}

/// Resolved members are named as the members they come from: none is named
/// `$ref` where those are left out, or where there was none.
pub proof fn resolved_members_avoid_reference(
    context: Context,
    members: Members,
    n: nat,
    strip: bool,
    base: Seq<char>,
    trail: Seq<Seq<char>>,
    depth: nat,
)
    requires
        n <= members.len(),
        strip || names_avoid(members, ref_name()),
        resolve_members(context, members, n, strip, base, trail, depth) is Ok,
    ensures
        names_avoid(
            resolve_members(context, members, n, strip, base, trail, depth)->Ok_0,
            ref_name(),
        ),
    decreases n,
{
    if n > 0 {
        resolved_members_avoid_reference(
            context,
            members,
            (n - 1) as nat,
            strip,
            base,
            trail,
            depth,
        );
        let _ = members[n - 1];
    }
}

/// What a node resolves to has no member named `$ref` directly under it,
/// unless that is the name under which siblings are kept.
pub proof fn resolved_node_holds_no_reference(
    context: Context,
    node: Tree,
    base: Seq<char>,
    trail: Seq<Seq<char>>,
    depth: nat,
)
    requires
        context.keep != Some(ref_name()),
        resolve(context, node, base, trail, depth) is Ok,
    ensures
        holds_no_reference(resolve(context, node, base, trail, depth)->Ok_0),
    decreases depth,
{
    let here = effective_base(node, base);
    match node {
        Tree::Object(members) => {
            without_avoids(members, ref_name(), members.len() as int);
        },
        _ => {},
    }
    match reference_of(node) {
        None => {
            assert(resolve(context, node, base, trail, depth) == descend(
                context,
                node,
                true,
                here,
                trail,
                depth,
            ));
            match node {
                Tree::Object(members) => {
                    resolved_members_avoid_reference(
                        context,
                        members,
                        members.len(),
                        true,
                        here,
                        trail,
                        depth,
                    );
                },
                _ => {},
            }
        },
        Some(reference) => match find_target(context, here, reference) {
            Err(halt) => {},
            Ok((place, target)) => {
                if !trail.contains(place.full) && depth > 0 {
                    let longer = trail.push(place.full);
                    let less = (depth - 1) as nat;
                    resolved_node_holds_no_reference(
                        context,
                        target,
                        place.document,
                        longer,
                        less,
                    );
                    let resolved = resolve(context, target, place.document, longer, less)->Ok_0;
                    spliced_node_holds_no_reference(resolved, context.keep, siblings(node));
                    let spliced = splice(resolved, context.keep, siblings(node));
                    assert(resolve(context, node, base, trail, depth) == descend(
                        context,
                        spliced,
                        false,
                        here,
                        trail,
                        less,
                    ));
                    match spliced {
                        Tree::Object(members) => {
                            resolved_members_avoid_reference(
                                context,
                                members,
                                members.len(),
                                false,
                                here,
                                trail,
                                less,
                            );
                        },
                        _ => {},
                    }
                }
            },
        },
    }
}

/// Keeping siblings in a node that has no member named `$ref` gives it
/// none, unless that is the name under which they are kept.
pub proof fn spliced_node_holds_no_reference(
    resolved: Tree,
    keep: Option<Seq<char>>,
    beside: Tree,
)
    requires
        keep != Some(ref_name()),
        holds_no_reference(resolved),
    ensures
        holds_no_reference(splice(resolved, keep, beside)),
{
    match (resolved, keep) {
        (Tree::Object(members), Some(name)) => {
            with_avoids(members, name, beside, ref_name());
        },
        _ => {},
    }
}

/// A document that is resolved from the top, with nothing on the trail,
/// holds no member named `$ref` anywhere once it is resolved, unless that
/// is the name under which siblings are kept.
pub proof fn resolved_document_is_ref_free(
    context: Context,
    node: Tree,
    base: Seq<char>,
    depth: nat,
)
    requires
        context.keep != Some(ref_name()),
        resolve(context, node, base, Seq::empty(), depth) is Ok,
    ensures
        ref_free(resolve(context, node, base, Seq::empty(), depth)->Ok_0),
    decreases depth, node, 1nat,
{
    let trail = Seq::<Seq<char>>::empty();
    let here = effective_base(node, base);
    match reference_of(node) {
        None => {
            assert(resolve(context, node, base, trail, depth) == descend(
                context,
                node,
                true,
                here,
                trail,
                depth,
            ));
            resolved_descent_is_ref_free(context, node, true, here, depth);
        },
        Some(reference) => match find_target(context, here, reference) {
            Err(halt) => {},
            Ok((place, target)) => {
                assert(!trail.contains(place.full));
                let longer = trail.push(place.full);
                let less = (depth - 1) as nat;
                resolved_node_holds_no_reference(context, target, place.document, longer, less);
                let resolved = resolve(context, target, place.document, longer, less)->Ok_0;
                spliced_node_holds_no_reference(resolved, context.keep, siblings(node));
                let spliced = splice(resolved, context.keep, siblings(node));
                assert(resolve(context, node, base, trail, depth) == descend(
                    context,
                    spliced,
                    false,
                    here,
                    trail,
                    less,
                ));
                resolved_descent_is_ref_free(context, spliced, false, here, less);
            },
        },
    }
}

proof fn resolved_descent_is_ref_free(
    context: Context,
    node: Tree,
    strip: bool,
    base: Seq<char>,
    depth: nat,
)
    requires
        context.keep != Some(ref_name()),
        strip || holds_no_reference(node),
        descend(context, node, strip, base, Seq::empty(), depth) is Ok,
    ensures
        ref_free(descend(context, node, strip, base, Seq::empty(), depth)->Ok_0),
    decreases depth, node, 0nat,
{
    let trail = Seq::<Seq<char>>::empty();
    match node {
        Tree::Object(members) => {
            resolved_members_are_ref_free(context, members, members.len(), strip, base, depth);
            let resolved = resolve_members(
                context,
                members,
                members.len(),
                strip,
                base,
                trail,
                depth,
            )->Ok_0;
            assert(Tree::Object(resolved)->Object_0 == resolved);
        },
        Tree::Array(items) => {
            resolved_items_are_ref_free(context, items, items.len(), base, depth);
            let resolved = resolve_items(context, items, items.len(), base, trail, depth)->Ok_0;
            assert(Tree::Array(resolved)->Array_0 == resolved);
        },
        _ => {},
    }
}

proof fn resolved_members_are_ref_free(
    context: Context,
    members: Members,
    n: nat,
    strip: bool,
    base: Seq<char>,
    depth: nat,
)
    requires
        n <= members.len(),
        context.keep != Some(ref_name()),
        strip || names_avoid(members, ref_name()),
        resolve_members(context, members, n, strip, base, Seq::empty(), depth) is Ok,
    ensures
        ({
            let resolved = resolve_members(
                context,
                members,
                n,
                strip,
                base,
                Seq::empty(),
                depth,
            )->Ok_0;
            forall|i: int|
                0 <= i < resolved.len() ==> (#[trigger] resolved[i]).0 != ref_name() && ref_free(
                    resolved[i].1,
                )
        }),
    decreases depth, members, n,
{
    if n > 0 {
        resolved_members_are_ref_free(context, members, (n - 1) as nat, strip, base, depth);
        let _ = members[n - 1];
        if !(strip && members[n - 1].0 == ref_name()) {
            resolved_document_is_ref_free(context, members[n - 1].1, base, depth);
        }
    }
}

proof fn resolved_items_are_ref_free(
    context: Context,
    items: Seq<Tree>,
    n: nat,
    base: Seq<char>,
    depth: nat,
)
    requires
        n <= items.len(),
        context.keep != Some(ref_name()),
        resolve_items(context, items, n, base, Seq::empty(), depth) is Ok,
    ensures
        ({
            let resolved = resolve_items(context, items, n, base, Seq::empty(), depth)->Ok_0;
            forall|i: int| 0 <= i < resolved.len() ==> ref_free(#[trigger] resolved[i])
        }),
    decreases depth, items, n,
{
    if n > 0 {
        resolved_items_are_ref_free(context, items, (n - 1) as nat, base, depth);
        resolved_document_is_ref_free(context, items[n - 1], base, depth);
    }
}

/// Where a node holds a reference whose target is not on the trail, what
/// stands at the node after resolution is the resolved target: the target
/// is resolved under the identifier of its own document, with the reference
/// on the trail, and once some depth is enough for that, every greater
/// depth is enough for the node. With nothing kept, the node becomes the
/// resolved target with the values under it resolved once more, which is
/// the resolved target itself where that holds no reference any more. What
/// stood beside the reference is dropped.
pub proof fn reference_is_replaced_by_its_target(
    context: Context,
    node: Tree,
    base: Seq<char>,
    trail: Seq<Seq<char>>,
    depth: nat,
    place: Place,
    target: Tree,
    enough: nat,
    resolved: Tree,
)
    requires
        reference_of(node) matches Some(reference) && find_target(
            context,
            effective_base(node, base),
            reference,
        ) == Ok::<(Place, Tree), Halt>((place, target)),
        !trail.contains(place.full),
        resolve(context, target, place.document, trail.push(place.full), enough) == Ok::<
            Tree,
            Halt,
        >(resolved),
        depth > enough,
        context.keep is None,
    ensures
        resolve(context, node, base, trail, depth) == descend(
            context,
            resolved,
            false,
            effective_base(node, base),
            trail,
            (depth - 1) as nat,
        ),
        ref_free(resolved) ==> resolve(context, node, base, trail, depth) == Ok::<Tree, Halt>(
            resolved,
        ),
{
    more_depth_changes_nothing(
        context,
        target,
        place.document,
        trail.push(place.full),
        enough,
        (depth - 1) as nat,
    );
    if ref_free(resolved) {
        descent_without_references(
            context,
            resolved,
            false,
            effective_base(node, base),
            trail,
            (depth - 1) as nat,
        );
    }
}

/// Binding a name to a value without references, in members without
/// references, leaves them without references, unless the name is `$ref`.
pub proof fn kept_siblings_bring_no_reference(members: Members, name: Seq<char>, beside: Tree)
    requires
        ref_free(Tree::Object(members)),
        ref_free(beside),
        name != ref_name(),
    ensures
        ref_free(Tree::Object(with(members, name, beside))),
{
    let bound = with(members, name, beside);
    with_adds_one_member(members, name, beside);
    assert(Tree::Object(members)->Object_0 == members);
    assert(Tree::Object(bound)->Object_0 == bound);
    assert forall|i: int| 0 <= i < bound.len() implies (#[trigger] bound[i]).0 != ref_name()
        && ref_free(bound[i].1) by {
        if bound[i] != (name, beside) {
            let k = choose|k: int| 0 <= k < members.len() && members[k] == bound[i];
            let _ = members[k];
        }
    }
}

/// Where a name other than `$ref` is configured under which siblings are
/// kept, a node that holds a reference to a target which resolves to an
/// object without references, beside siblings without references, becomes
/// that object with the siblings bound to the name: the member of that name
/// is what stood beside the reference, and every other member is one of the
/// resolved target.
pub proof fn reference_is_replaced_and_siblings_are_kept(
    context: Context,
    node: Tree,
    base: Seq<char>,
    trail: Seq<Seq<char>>,
    depth: nat,
    place: Place,
    target: Tree,
    enough: nat,
    resolved: Members,
    name: Seq<char>,
)
    requires
        reference_of(node) matches Some(reference) && find_target(
            context,
            effective_base(node, base),
            reference,
        ) == Ok::<(Place, Tree), Halt>((place, target)),
        !trail.contains(place.full),
        resolve(context, target, place.document, trail.push(place.full), enough) == Ok::<
            Tree,
            Halt,
        >(Tree::Object(resolved)),
        depth > enough,
        context.keep == Some(name),
        name != ref_name(),
        ref_free(Tree::Object(resolved)),
        ref_free(siblings(node)),
    ensures
        resolve(context, node, base, trail, depth) == Ok::<Tree, Halt>(
            Tree::Object(with(resolved, name, siblings(node))),
        ),
        lookup(with(resolved, name, siblings(node)), name) == Some(siblings(node)),
        forall|j: int|
            0 <= j < with(resolved, name, siblings(node)).len() ==> (#[trigger] with(
                resolved,
                name,
                siblings(node),
            )[j]) == (name, siblings(node)) || resolved.contains(
                with(resolved, name, siblings(node))[j],
            ),
{
    let here = effective_base(node, base);
    let less = (depth - 1) as nat;
    let beside = siblings(node);
    let bound = with(resolved, name, beside);
    more_depth_changes_nothing(context, target, place.document, trail.push(place.full), enough, less);
    assert(splice(Tree::Object(resolved), context.keep, beside) == Tree::Object(bound));
    kept_siblings_bring_no_reference(resolved, name, beside);
    descent_without_references(context, Tree::Object(bound), false, here, trail, less);
    lookup_after_with(resolved, name, beside);
    with_adds_one_member(resolved, name, beside);
}

/// Where a name is configured under which siblings are kept, a node that
/// held a reference to an object has, after a resolution that did not
/// stop, a member of that name: it is the resolution of what stood beside
/// the reference, and so that itself where it holds no reference.
pub proof fn siblings_are_kept_under_the_configured_name(
    context: Context,
    node: Tree,
    base: Seq<char>,
    trail: Seq<Seq<char>>,
    depth: nat,
    place: Place,
    target: Tree,
    enough: nat,
    resolved: Members,
    name: Seq<char>,
)
    requires
        reference_of(node) matches Some(reference) && find_target(
            context,
            effective_base(node, base),
            reference,
        ) == Ok::<(Place, Tree), Halt>((place, target)),
        !trail.contains(place.full),
        resolve(context, target, place.document, trail.push(place.full), enough) == Ok::<
            Tree,
            Halt,
        >(Tree::Object(resolved)),
        depth > enough,
        context.keep == Some(name),
        resolve(context, node, base, trail, depth) is Ok,
    ensures
        resolve(context, node, base, trail, depth) matches Ok(Tree::Object(members)) && lookup(
            members,
            name,
        ) matches Some(kept) && resolve(
            context,
            siblings(node),
            effective_base(node, base),
            trail,
            (depth - 1) as nat,
        ) == Ok::<Tree, Halt>(kept) && (ref_free(siblings(node)) ==> kept == siblings(node)),
{
    let here = effective_base(node, base);
    let less = (depth - 1) as nat;
    let beside = siblings(node);
    let bound = with(resolved, name, beside);
    more_depth_changes_nothing(context, target, place.document, trail.push(place.full), enough, less);
    assert(splice(Tree::Object(resolved), context.keep, beside) == Tree::Object(bound));
    assert(resolve(context, node, base, trail, depth) == descend(
        context,
        Tree::Object(bound),
        false,
        here,
        trail,
        less,
    ));
    resolved_members_are_in_place(context, bound, bound.len(), here, trail, less);
    let members = resolve_members(context, bound, bound.len(), false, here, trail, less)->Ok_0;
    lookup_after_with(resolved, name, beside);
    position_goes_by_names(members, bound, name, 0);
    let p = position_from(bound, name, 0);
    position_is_in_range(bound, name, 0);
    assert(0 <= p < bound.len() && bound[p].1 == beside);
    assert(members.len() == bound.len());
    assert(position_from(members, name, 0) == p);
    assert(lookup(members, name) == Some(members[p].1));
    assert(resolve(context, bound[p].1, here, trail, less) == Ok::<Tree, Halt>(members[p].1));
    assert(resolve(context, node, base, trail, depth) == Ok::<Tree, Halt>(Tree::Object(members)));
    if ref_free(beside) {
        resolution_without_references(context, beside, here, trail, less);
    }
}

/// A reference whose target is on the trail is not followed again: the
/// node is left as what stood beside the reference, and nothing under it
/// is resolved. So a document that refers to itself is unrolled once.
pub proof fn reference_on_the_trail_is_not_followed(
    context: Context,
    node: Tree,
    base: Seq<char>,
    trail: Seq<Seq<char>>,
    depth: nat,
    place: Place,
    target: Tree,
)
    requires
        reference_of(node) matches Some(reference) && find_target(
            context,
            effective_base(node, base),
            reference,
        ) == Ok::<(Place, Tree), Halt>((place, target)),
        trail.contains(place.full),
    ensures
        resolve(context, node, base, trail, depth) == Ok::<Tree, Halt>(siblings(node)),
        holds_no_reference(siblings(node)),
{
    match node {
        Tree::Object(members) => {
            without_avoids(members, ref_name(), members.len() as int);
        },
        _ => {},
    }
}

/// Whether a resolution stopped because its substitutions nested more
/// deeply than it was allowed.
pub open spec fn out_of_depth<T>(outcome: Result<T, Halt>) -> bool {
    outcome matches Err(Halt::Failed(failure)) && failure.kind == ErrorKind::DepthExceeded
}

/// The depth allowed decides nothing but whether it is enough: a
/// resolution that does not stop for want of depth comes out the same at
/// every greater depth.
pub proof fn more_depth_changes_nothing(
    context: Context,
    node: Tree,
    base: Seq<char>,
    trail: Seq<Seq<char>>,
    depth: nat,
    more: nat,
)
    requires
        depth <= more,
        !out_of_depth(resolve(context, node, base, trail, depth)),
    ensures
        resolve(context, node, base, trail, more) == resolve(context, node, base, trail, depth),
    decreases depth, node, 1nat,
{
    let here = effective_base(node, base);
    match reference_of(node) {
        None => {
            more_depth_changes_no_descent(context, node, true, here, trail, depth, more);
        },
        Some(reference) => match find_target(context, here, reference) {
            Err(halt) => {},
            Ok((place, target)) => {
                if !trail.contains(place.full) && depth > 0 {
                    let longer = trail.push(place.full);
                    let less = (depth - 1) as nat;
                    let most = (more - 1) as nat;
                    more_depth_changes_nothing(
                        context,
                        target,
                        place.document,
                        longer,
                        less,
                        most,
                    );
                    match resolve(context, target, place.document, longer, less) {
                        Err(halt) => {},
                        Ok(resolved) => {
                            more_depth_changes_no_descent(
                                context,
                                splice(resolved, context.keep, siblings(node)),
                                false,
                                here,
                                trail,
                                less,
                                most,
                            );
                        },
                    }
                }
            },
        },
    }
}

proof fn more_depth_changes_no_descent(
    context: Context,
    node: Tree,
    strip: bool,
    base: Seq<char>,
    trail: Seq<Seq<char>>,
    depth: nat,
    more: nat,
)
    requires
        depth <= more,
        !out_of_depth(descend(context, node, strip, base, trail, depth)),
    ensures
        descend(context, node, strip, base, trail, more) == descend(
            context,
            node,
            strip,
            base,
            trail,
            depth,
        ),
    decreases depth, node, 0nat,
{
    match node {
        Tree::Object(members) => {
            more_depth_changes_no_members(
                context,
                members,
                members.len(),
                strip,
                base,
                trail,
                depth,
                more,
            );
        },
        Tree::Array(items) => {
            more_depth_changes_no_items(context, items, items.len(), base, trail, depth, more);
        },
        _ => {},
    }
}

proof fn more_depth_changes_no_members(
    context: Context,
    members: Members,
    n: nat,
    strip: bool,
    base: Seq<char>,
    trail: Seq<Seq<char>>,
    depth: nat,
    more: nat,
)
    requires
        depth <= more,
        !out_of_depth(resolve_members(context, members, n, strip, base, trail, depth)),
    ensures
        resolve_members(context, members, n, strip, base, trail, more) == resolve_members(
            context,
            members,
            n,
            strip,
            base,
            trail,
            depth,
        ),
    decreases depth, members, n,
{
    if 0 < n <= members.len() {
        let fewer = (n - 1) as nat;
        more_depth_changes_no_members(context, members, fewer, strip, base, trail, depth, more);
        if resolve_members(context, members, fewer, strip, base, trail, depth) is Ok && !(strip
            && members[n - 1].0 == ref_name()) {
            more_depth_changes_nothing(context, members[n - 1].1, base, trail, depth, more);
        }
    }
}

proof fn more_depth_changes_no_items(
    context: Context,
    items: Seq<Tree>,
    n: nat,
    base: Seq<char>,
    trail: Seq<Seq<char>>,
    depth: nat,
    more: nat,
)
    requires
        depth <= more,
        !out_of_depth(resolve_items(context, items, n, base, trail, depth)),
    ensures
        resolve_items(context, items, n, base, trail, more) == resolve_items(
            context,
            items,
            n,
            base,
            trail,
            depth,
        ),
    decreases depth, items, n,
{
    if 0 < n <= items.len() {
        let fewer = (n - 1) as nat;
        more_depth_changes_no_items(context, items, fewer, base, trail, depth, more);
        if resolve_items(context, items, fewer, base, trail, depth) is Ok {
            more_depth_changes_nothing(context, items[n - 1], base, trail, depth, more);
        }
    }
}

} // verus!
