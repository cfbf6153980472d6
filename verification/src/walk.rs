//! What resolution computes, stated over the models of documents.

use crate::error::ErrorKind;
use crate::error::Failure;
use crate::json::lookup;
use crate::json::with;
use crate::json::without;
use crate::json::Members;
use crate::json::Tree;
use crate::location::locate;
use crate::location::path_of;
use crate::location::transport_of;
use crate::location::Place;
use crate::outcome::Halt;
use crate::outcome::Need;
use crate::outcome::Transport;
use crate::pointer::pointer_target;
use vstd::prelude::*;

verus! {

/// The name of the member that holds a reference.
pub open spec fn ref_name() -> Seq<char> {
    seq!['$', 'r', 'e', 'f']
}

/// The name of the member that holds a node's own identifier.
pub open spec fn id_name() -> Seq<char> {
    seq!['$', 'i', 'd']
}

/// What a resolution reads besides the document it resolves.
pub struct Context {
    /// The cached documents, by identifier.
    pub documents: Map<Seq<char>, Tree>,
    /// The name under which a substituted node keeps what the reference
    /// stood beside, if that is kept at all.
    pub keep: Option<Seq<char>>,
}

/// The base identifier in effect at `node` and below it: the node's own
/// `$id` where it is an object that has one that is a string, and the
/// inherited one otherwise.
pub open spec fn effective_base(node: Tree, inherited: Seq<char>) -> Seq<char> {
    match node {
        Tree::Object(members) => match lookup(members, id_name()) {
            Some(Tree::String(own)) => own,
            _ => inherited,
        },
        _ => inherited,
    }
}

/// The reference that `node` holds: the value of its `$ref` member, where
/// it is an object that has one that is a string.
pub open spec fn reference_of(node: Tree) -> Option<Seq<char>> {
    match node {
        Tree::Object(members) => match lookup(members, ref_name()) {
            Some(Tree::String(reference)) => Some(reference),
            _ => None,
        },
        _ => None,
    }
}

/// What stood beside the reference in `node`: its members but `$ref`.
pub open spec fn siblings(node: Tree) -> Tree {
    match node {
        Tree::Object(members) => Tree::Object(without(members, ref_name())),
        _ => node,
    }
}

/// How a resolution stops for a document that the cache does not hold.
pub open spec fn demand(document: Seq<char>, base: Seq<char>, reference: Seq<char>) -> Halt {
    match transport_of(document) {
        Some(Transport::Http) => Halt::Load(
            Need { transport: Transport::Http, identifier: document, path: None, base, reference },
        ),
        Some(Transport::File) => match path_of(document) {
            Some(path) => Halt::Load(
                Need {
                    transport: Transport::File,
                    identifier: document,
                    path: Some(path),
                    base,
                    reference,
                },
            ),
            None => Halt::Failed(Failure { kind: ErrorKind::InvalidReference, base, reference }),
        },
        None => Halt::Failed(Failure { kind: ErrorKind::UnsupportedScheme, base, reference }),
    }
}

/// The node that takes the place of a reference: the resolved target, which
/// keeps `beside` under the name `keep` where it is an object and a name is
/// configured.
pub open spec fn splice(resolved: Tree, keep: Option<Seq<char>>, beside: Tree) -> Tree {
    match (resolved, keep) {
        (Tree::Object(members), Some(name)) => Tree::Object(with(members, name, beside)),
        _ => resolved,
    }
}

/// The value at `place` in the cached documents, for the reference
/// `reference` that stands under the base identifier `base` and names the
/// place. The resolution stops where the document of the place is not
/// cached, and where the document holds nothing at the fragment.
pub open spec fn found_at(
    context: Context,
    place: Place,
    base: Seq<char>,
    reference: Seq<char>,
) -> Result<Tree, Halt> {
    if !context.documents.contains_key(place.document) {
        Err(demand(place.document, base, reference))
    } else {
        let document = context.documents[place.document];
        let found = match place.fragment {
            Some(fragment) => pointer_target(document, fragment),
            None => Some(document),
        };
        match found {
            Some(target) => Ok(target),
            None => Err(
                Halt::Failed(Failure { kind: ErrorKind::PointerNotFound, base, reference }),
            ),
        }
    }
}

/// Where `reference`, which stands under the base identifier `base`, leads:
/// the place it names and the value found there in the cached documents.
/// The resolution stops where the reference names no place, and where
/// nothing is found at the place.
pub open spec fn find_target(context: Context, base: Seq<char>, reference: Seq<char>) -> Result<
    (Place, Tree),
    Halt,
> {
    match locate(base, reference) {
        Err(kind) => Err(Halt::Failed(Failure { kind, base, reference })),
        Ok(place) => match found_at(context, place, base, reference) {
            Ok(target) => Ok((place, target)),
            Err(halt) => Err(halt),
        },
    }
}

/// The resolution of `node`, which stands under the base identifier `base`
/// and is reached through the references of `trail`, with `depth`
/// substitutions left to nest.
///
/// A node that holds no reference has the values under it resolved, and
/// loses a `$ref` member that is no string. A node that holds a reference
/// whose target is on the trail already is left as what stood beside the
/// reference. Any other node that holds a reference becomes the resolution
/// of the target, made under the identifier of the target's document and
/// with the target on the trail; what stood beside the reference is kept
/// in it where the context says so, and the values under the new node are
/// resolved in turn.
pub open spec fn resolve(
    context: Context,
    node: Tree,
    base: Seq<char>,
    trail: Seq<Seq<char>>,
    depth: nat,
) -> Result<Tree, Halt>
    decreases depth, node, 1nat,
{
    let here = effective_base(node, base);
    match reference_of(node) {
        None => descend(context, node, true, here, trail, depth),
        Some(reference) => match find_target(context, here, reference) {
            Err(halt) => Err(halt),
            Ok((place, target)) => if trail.contains(place.full) {
                Ok(siblings(node))
            } else if depth == 0 {
                Err(
                    Halt::Failed(
                        Failure { kind: ErrorKind::DepthExceeded, base: here, reference },
                    ),
                )
            } else {
                match resolve(
                    context,
                    target,
                    place.document,
                    trail.push(place.full),
                    (depth - 1) as nat,
                ) {
                    Err(halt) => Err(halt),
                    Ok(resolved) => descend(
                        context,
                        splice(resolved, context.keep, siblings(node)),
                        false,
                        here,
                        trail,
                        (depth - 1) as nat,
                    ),
                }
            },
        },
    }
}

/// `node` with each value directly under it resolved, from the first to the
/// last; `strip` leaves out the members named `$ref`.
pub open spec fn descend(
    context: Context,
    node: Tree,
    strip: bool,
    base: Seq<char>,
    trail: Seq<Seq<char>>,
    depth: nat,
) -> Result<Tree, Halt>
    decreases depth, node, 0nat,
{
    match node {
        Tree::Object(members) => match resolve_members(
            context,
            members,
            members.len(),
            strip,
            base,
            trail,
            depth,
        ) {
            Ok(resolved) => Ok(Tree::Object(resolved)),
            Err(halt) => Err(halt),
        },
        Tree::Array(items) => match resolve_items(context, items, items.len(), base, trail, depth) {
            Ok(resolved) => Ok(Tree::Array(resolved)),
            Err(halt) => Err(halt),
        },
        _ => Ok(node),
    }
}

/// The first `n` of `members` with their values resolved, from the first
/// on; the first resolution that stops, stops the whole.
pub open spec fn resolve_members(
    context: Context,
    members: Members,
    n: nat,
    strip: bool,
    base: Seq<char>,
    trail: Seq<Seq<char>>,
    depth: nat,
) -> Result<Members, Halt>
    decreases depth, members, n,
{
    if n == 0 || n > members.len() {
        Ok(Seq::empty())
    } else {
        match resolve_members(context, members, (n - 1) as nat, strip, base, trail, depth) {
            Err(halt) => Err(halt),
            Ok(before) => if strip && members[n - 1].0 == ref_name() {
                Ok(before)
            } else {
                match resolve(context, members[n - 1].1, base, trail, depth) {
                    Err(halt) => Err(halt),
                    Ok(value) => Ok(before.push((members[n - 1].0, value))),
                }
            },
        }
    }
}

/// The first `n` of `items` resolved, from the first on; the first
/// resolution that stops, stops the whole.
pub open spec fn resolve_items(
    context: Context,
    items: Seq<Tree>,
    n: nat,
    base: Seq<char>,
    trail: Seq<Seq<char>>,
    depth: nat,
) -> Result<Seq<Tree>, Halt>
    decreases depth, items, n,
{
    if n == 0 || n > items.len() {
        Ok(Seq::empty())
    } else {
        match resolve_items(context, items, (n - 1) as nat, base, trail, depth) {
            Err(halt) => Err(halt),
            Ok(before) => match resolve(context, items[n - 1], base, trail, depth) {
                Err(halt) => Err(halt),
                Ok(value) => Ok(before.push(value)),
            },
        }
    }
}

/// Once the resolution of some members has stopped, that of more members
/// stops in the same way.
pub proof fn members_stop_stays(
    context: Context,
    members: Members,
    m: nat,
    n: nat,
    strip: bool,
    base: Seq<char>,
    trail: Seq<Seq<char>>,
    depth: nat,
)
    requires
        m <= n <= members.len(),
        resolve_members(context, members, m, strip, base, trail, depth) is Err,
    ensures
        resolve_members(context, members, n, strip, base, trail, depth) == resolve_members(
            context,
            members,
            m,
            strip,
            base,
            trail,
            depth,
        ),
    decreases n,
{
    if m < n {
        members_stop_stays(context, members, m, (n - 1) as nat, strip, base, trail, depth);
    }
}

/// Once the resolution of some items has stopped, that of more items stops
/// in the same way.
pub proof fn items_stop_stays(
    context: Context,
    items: Seq<Tree>,
    m: nat,
    n: nat,
    base: Seq<char>,
    trail: Seq<Seq<char>>,
    depth: nat,
)
    requires
        m <= n <= items.len(),
        resolve_items(context, items, m, base, trail, depth) is Err,
    ensures
        resolve_items(context, items, n, base, trail, depth) == resolve_items(
            context,
            items,
            m,
            base,
            trail,
            depth,
        ),
    decreases n,
{
    if m < n {
        items_stop_stays(context, items, m, (n - 1) as nat, base, trail, depth);
    }
}

} // verus!
