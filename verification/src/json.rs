//! JSON documents and their mathematical model.

use crate::text::chars_of;
use crate::text::comes_before;
use crate::text::precedes;
use crate::text::precedes_is_irreflexive;
use crate::text::precedes_is_total;
use crate::text::precedes_is_transitive;
use crate::text::spells;
use vstd::prelude::*;

verus! {

/// A JSON number: a non-negative integer, a negative integer, or the
/// bit pattern of a binary64 value.
#[derive(Clone, Copy, Debug, PartialEq, Eq)]
pub enum Number {
    PosInt(u64),
    NegInt(i64),
    Real(u64),
}

/// A JSON document held in memory.
///
/// An object holds its members in a list. [`canonical`] says that every
/// object holds them by ascending name, and so each name once:
/// [`Json::object`] and [`Json::insert`] make such documents, every
/// operation of this library keeps them so, and [`Json::is_canonical`]
/// tells whether a document is one. Of such documents `==` is the equality
/// of JSON values.
#[derive(Debug, PartialEq, Eq)]
pub enum Json {
    Null,
    Bool(bool),
    Number(Number),
    String(String),
    Array(Vec<Json>),
    Object(Vec<(String, Json)>),
}

/// The mathematical model of a JSON document.
pub enum Tree {
    Null,
    Bool(bool),
    Number(Number),
    String(Seq<char>),
    Array(Seq<Tree>),
    Object(Seq<(Seq<char>, Tree)>),
}

/// The members of an object, in the order in which the object holds them.
pub type Members = Seq<(Seq<char>, Tree)>;

/// The model of a list of documents.
pub open spec fn items_model(items: Seq<Json>) -> Seq<Tree>
    decreases items,
{
    Seq::new(
        items.len(),
        |i: int|
            if 0 <= i < items.len() {
                items[i]@
            } else {
                Tree::Null
            },
    )
}

/// The model of a list of members.
pub open spec fn members_model(members: Seq<(String, Json)>) -> Seq<(Seq<char>, Tree)>
    decreases members,
{
    Seq::new(
        members.len(),
        |i: int|
            if 0 <= i < members.len() {
                (members[i].0@, members[i].1@)
            } else {
                (Seq::empty(), Tree::Null)
            },
    )
}

impl View for Json {
    type V = Tree;

    open spec fn view(&self) -> Tree
        decreases self,
    {
        match self {
            Json::Null => Tree::Null,
            Json::Bool(b) => Tree::Bool(*b),
            Json::Number(n) => Tree::Number(*n),
            Json::String(s) => Tree::String(s@),
            Json::Array(items) => Tree::Array(items_model(items@)),
            Json::Object(members) => Tree::Object(members_model(members@)),
        }
    }
}

impl Clone for Json {
    fn clone(&self) -> (r: Json)
        ensures
            r@ == self@,
    {
        self.copy()
    }
}

/// The position of the first member named `name` at or after `i`; the
/// number of members where there is none.
pub open spec fn position_from(members: Members, name: Seq<char>, i: int) -> int
    decreases members.len() - i,
{
    if i >= members.len() {
        members.len() as int
    } else if members[i].0 == name {
        i
    } else {
        position_from(members, name, i + 1)
    }
}

/// The value of the first member named `name`.
pub open spec fn lookup(members: Members, name: Seq<char>) -> Option<Tree> {
    let p = position_from(members, name, 0);
    if p < members.len() {
        Some(members[p].1)
    } else {
        None
    }
}

/// The first `n` members without those named `name`.
pub open spec fn without_upto(members: Members, name: Seq<char>, n: int) -> Members
    decreases n,
{
    if n <= 0 {
        Seq::empty()
    } else {
        let before = without_upto(members, name, n - 1);
        if members[n - 1].0 == name {
            before
        } else {
            before.push(members[n - 1])
        }
    }
}

/// The members without those named `name`.
pub open spec fn without(members: Members, name: Seq<char>) -> Members {
    without_upto(members, name, members.len() as int)
}

/// The position of the first member at or after `i` whose name does not
/// come before `name`; the number of members where there is none.
pub open spec fn slot_from(members: Members, name: Seq<char>, i: int) -> int
    decreases members.len() - i,
{
    if i >= members.len() {
        members.len() as int
    } else if precedes(members[i].0, name) {
        slot_from(members, name, i + 1)
    } else {
        i
    }
}

/// The members with `name` bound to `value`: the new member stands before
/// the first member whose name does not come before `name`, and takes that
/// member's place where `name` does not come before its name either.
pub open spec fn with(members: Members, name: Seq<char>, value: Tree) -> Members {
    let p = slot_from(members, name, 0);
    if p < members.len() && !precedes(name, members[p].0) {
        members.update(p, (name, value))
    } else {
        members.insert(p, (name, value))
    }
}

/// The search from `i` ends at `i` or behind it, at the latest right behind
/// the members.
pub proof fn position_is_in_range(members: Members, name: Seq<char>, i: int)
    requires
        0 <= i <= members.len(),
    ensures
        i <= position_from(members, name, i) <= members.len(),
    decreases members.len() - i,
{
    if i < members.len() && members[i].0 != name {
        position_is_in_range(members, name, i + 1);
    }
}

/// Where no member from `i` on has the name, the search from `i` finds
/// none.
pub proof fn position_of_absent_name(members: Members, name: Seq<char>, i: int)
    requires
        0 <= i <= members.len(),
        forall|k: int| i <= k < members.len() ==> (#[trigger] members[k]).0 != name,
    ensures
        position_from(members, name, i) == members.len(),
    decreases members.len() - i,
{
    if i < members.len() {
        position_of_absent_name(members, name, i + 1);
    }
}

/// The search from `i` finds the member at `p` where that one has the name
/// and none from `i` up to it has.
pub proof fn position_of_first(members: Members, name: Seq<char>, i: int, p: int)
    requires
        0 <= i <= p < members.len(),
        members[p].0 == name,
        forall|k: int| i <= k < p ==> (#[trigger] members[k]).0 != name,
    ensures
        position_from(members, name, i) == p,
    decreases p - i,
{
    if i < p {
        position_of_first(members, name, i + 1, p);
    }
}

/// The search for a name goes by the names alone.
pub proof fn position_goes_by_names(first: Members, second: Members, name: Seq<char>, i: int)
    requires
        0 <= i,
        first.len() == second.len(),
        forall|k: int| 0 <= k < first.len() ==> (#[trigger] first[k]).0 == second[k].0,
    ensures
        position_from(first, name, i) == position_from(second, name, i),
    decreases first.len() - i,
{
    if i < first.len() {
        let _ = first[i];
        position_goes_by_names(first, second, name, i + 1);
    }
}

/// Whether no member of `members` is named `name`.
pub open spec fn names_avoid(members: Members, name: Seq<char>) -> bool {
    forall|i: int| 0 <= i < members.len() ==> (#[trigger] members[i]).0 != name
}

/// Removing the members of a name leaves none of that name.
pub proof fn without_avoids(members: Members, name: Seq<char>, n: int)
    requires
        n <= members.len(),
    ensures
        names_avoid(without_upto(members, name, n), name),
    decreases n,
{
    if n > 0 {
        without_avoids(members, name, n - 1);
    }
}

/// The slot for a name lies among the members or right behind them, and
/// every member before it has a name that comes before the name.
pub proof fn slot_is_in_range(members: Members, name: Seq<char>, i: int)
    requires
        0 <= i <= members.len(),
    ensures
        i <= slot_from(members, name, i) <= members.len(),
        forall|k: int|
            i <= k < slot_from(members, name, i) ==> precedes((#[trigger] members[k]).0, name),
    decreases members.len() - i,
{
    if i < members.len() && precedes(members[i].0, name) {
        slot_is_in_range(members, name, i + 1);
    }
}

/// Binding a name adds no other name.
pub proof fn with_avoids(members: Members, name: Seq<char>, value: Tree, other: Seq<char>)
    requires
        names_avoid(members, other),
        name != other,
    ensures
        names_avoid(with(members, name, value), other),
{
    slot_is_in_range(members, name, 0);
}

/// After a name is bound, every member is the new one or one of the old.
pub proof fn with_adds_one_member(members: Members, name: Seq<char>, value: Tree)
    ensures
        forall|j: int|
            0 <= j < with(members, name, value).len() ==> (#[trigger] with(members, name, value)[j])
                == (name, value) || members.contains(with(members, name, value)[j]),
{
    slot_is_in_range(members, name, 0);
    let p = slot_from(members, name, 0);
    let bound = with(members, name, value);
    assert forall|j: int| 0 <= j < bound.len() implies (#[trigger] bound[j]) == (name, value)
        || members.contains(bound[j]) by {
        if j == p {
        } else if p < members.len() && !precedes(name, members[p].0) {
            assert(bound[j] == members[j]);
        } else if j < p {
            assert(bound[j] == members[j]);
        } else {
            assert(bound[j] == members[j - 1]);
        }
    }
}

/// After a name is bound, looking it up gives what it was bound to.
pub proof fn lookup_after_with(members: Members, name: Seq<char>, value: Tree)
    ensures
        lookup(with(members, name, value), name) == Some(value),
{
    slot_is_in_range(members, name, 0);
    let p = slot_from(members, name, 0);
    let bound = with(members, name, value);
    assert(bound[p] == (name, value));
    assert forall|k: int| 0 <= k < p implies (#[trigger] bound[k]).0 != name by {
        assert(bound[k] == members[k]);
        precedes_is_irreflexive(name);
    }
    position_of_first(bound, name, 0, p);
}

/// Whether the names of `members` ascend strictly.
pub open spec fn in_order(members: Members) -> bool {
    forall|i: int, j: int|
        0 <= i < j < members.len() ==> precedes(
            (#[trigger] members[i]).0,
            (#[trigger] members[j]).0,
        )
}

/// Whether every object in `node` holds its members by ascending name.
pub open spec fn canonical(node: Tree) -> bool
    decreases node,
{
    match node {
        Tree::Object(members) => in_order(members) && forall|i: int|
            0 <= i < members.len() ==> canonical((#[trigger] members[i]).1),
        Tree::Array(items) => forall|i: int| 0 <= i < items.len() ==> canonical(#[trigger] items[i]),
        _ => true,
    }
}

/// The member in the slot for a name does not come before the name.
pub proof fn slot_ends_the_names_before(members: Members, name: Seq<char>, i: int)
    requires
        0 <= i <= members.len(),
    ensures
        slot_from(members, name, i) < members.len() ==> !precedes(
            members[slot_from(members, name, i)].0,
            name,
        ),
    decreases members.len() - i,
{
    if i < members.len() && precedes(members[i].0, name) {
        slot_ends_the_names_before(members, name, i + 1);
    }
}

/// Binding a name keeps the members in order.
pub proof fn with_keeps_order(members: Members, name: Seq<char>, value: Tree)
    requires
        in_order(members),
    ensures
        in_order(with(members, name, value)),
{
    slot_is_in_range(members, name, 0);
    slot_ends_the_names_before(members, name, 0);
    let p = slot_from(members, name, 0);
    let bound = with(members, name, value);
    if p < members.len() && !precedes(name, members[p].0) {
        precedes_is_total(name, members[p].0);
        assert forall|i: int, j: int| 0 <= i < j < bound.len() implies precedes(
            (#[trigger] bound[i]).0,
            (#[trigger] bound[j]).0,
        ) by {
            assert(bound[i].0 == members[i].0);
            assert(bound[j].0 == members[j].0);
        }
    } else {
        assert forall|i: int, j: int| 0 <= i < j < bound.len() implies precedes(
            (#[trigger] bound[i]).0,
            (#[trigger] bound[j]).0,
        ) by {
            if j < p {
                assert(bound[i] == members[i] && bound[j] == members[j]);
            } else if j == p {
                assert(bound[i] == members[i]);
            } else if i == p {
                assert(bound[j] == members[j - 1]);
                if j - 1 > p {
                    assert(precedes(members[p].0, members[j - 1].0));
                    precedes_is_transitive(name, members[p].0, members[j - 1].0);
                }
            } else if i < p {
                assert(bound[i] == members[i] && bound[j] == members[j - 1]);
                assert(precedes(members[i].0, members[j - 1].0));
            } else {
                assert(bound[i] == members[i - 1] && bound[j] == members[j - 1]);
            }
        }
    }
}

/// Each of the first `n` members without those of a name is one of the
/// first `n` members, and they stand in the order in which they stood.
pub proof fn without_keeps_order(members: Members, name: Seq<char>, n: int)
    requires
        0 <= n <= members.len(),
        in_order(members),
    ensures
        in_order(without_upto(members, name, n)),
        forall|j: int|
            0 <= j < without_upto(members, name, n).len() ==> exists|k: int|
                0 <= k < n && #[trigger] without_upto(members, name, n)[j] == members[k],
    decreases n,
{
    if n > 0 {
        without_keeps_order(members, name, n - 1);
        let before = without_upto(members, name, n - 1);
        let now = without_upto(members, name, n);
        if members[n - 1].0 != name {
            assert forall|j: int| 0 <= j < now.len() implies exists|k: int|
                0 <= k < n && #[trigger] now[j] == members[k] by {
                if j < before.len() {
                    let k = choose|k: int| 0 <= k < n - 1 && before[j] == members[k];
                    assert(now[j] == members[k]);
                } else {
                    assert(now[j] == members[n - 1]);
                }
            }
            assert forall|i: int, j: int| 0 <= i < j < now.len() implies precedes(
                (#[trigger] now[i]).0,
                (#[trigger] now[j]).0,
            ) by {
                if j < before.len() {
                    assert(now[i] == before[i] && now[j] == before[j]);
                } else {
                    let k = choose|k: int| 0 <= k < n - 1 && before[i] == members[k];
                    assert(now[i] == members[k]);
                    assert(now[j] == members[n - 1]);
                }
            }
        } else {
            assert forall|j: int| 0 <= j < now.len() implies exists|k: int|
                0 <= k < n && #[trigger] now[j] == members[k] by {
                let k = choose|k: int| 0 <= k < n - 1 && before[j] == members[k];
                assert(now[j] == members[k]);
            }
        }
    }
}

/// An object in order, given by its members.
pub proof fn object_in_order(members: Members)
    requires
        in_order(members),
        forall|i: int| 0 <= i < members.len() ==> canonical((#[trigger] members[i]).1),
    ensures
        canonical(Tree::Object(members)),
{
    assert(Tree::Object(members)->Object_0 == members);
}

/// The members of an object in order.
pub proof fn members_of_object_in_order(members: Members)
    requires
        canonical(Tree::Object(members)),
    ensures
        in_order(members),
        forall|i: int| 0 <= i < members.len() ==> canonical((#[trigger] members[i]).1),
{
    assert(Tree::Object(members)->Object_0 == members);
}

/// Binding a name to a value in order, in an object in order, gives an
/// object in order.
pub proof fn with_keeps_canonical(members: Members, name: Seq<char>, value: Tree)
    requires
        canonical(Tree::Object(members)),
        canonical(value),
    ensures
        canonical(Tree::Object(with(members, name, value))),
{
    members_of_object_in_order(members);
    with_keeps_order(members, name, value);
    with_adds_one_member(members, name, value);
    let bound = with(members, name, value);
    assert forall|j: int| 0 <= j < bound.len() implies canonical((#[trigger] bound[j]).1) by {
        if bound[j] != (name, value) {
            let k = choose|k: int| 0 <= k < members.len() && members[k] == bound[j];
            let _ = members[k];
        }
    }
    object_in_order(bound);
}

/// Leaving out the members of a name, from an object in order, gives an
/// object in order.
pub proof fn without_keeps_canonical(members: Members, name: Seq<char>)
    requires
        canonical(Tree::Object(members)),
    ensures
        canonical(Tree::Object(without(members, name))),
{
    members_of_object_in_order(members);
    without_keeps_order(members, name, members.len() as int);
    let rest = without(members, name);
    assert forall|j: int| 0 <= j < rest.len() implies canonical((#[trigger] rest[j]).1) by {
        let k = choose|k: int| 0 <= k < members.len() && rest[j] == members[k];
        let _ = members[k];
    }
    object_in_order(rest);
}

/// Members of which each has a name that comes after the name of the one
/// before it are in order.
pub proof fn ascending_neighbours_are_in_order(members: Members, i: int, j: int)
    requires
        0 <= i < j < members.len(),
        forall|k: int|
            #![trigger members[k]]
            0 < k < members.len() ==> precedes(members[k - 1].0, members[k].0),
    ensures
        precedes(members[i].0, members[j].0),
    decreases j - i,
{
    let _ = members[j];
    if i + 1 < j {
        ascending_neighbours_are_in_order(members, i, j - 1);
        precedes_is_transitive(members[i].0, members[j - 1].0, members[j].0);
    }
}

/// The position of the first member whose name is spelled `name`.
pub fn find_spelled(members: &Vec<(String, Json)>, name: &Vec<char>) -> (r: Option<usize>)
    ensures
        match r {
            Some(i) => i < members.len() && position_from(members_model(members@), name@, 0) == i,
            None => position_from(members_model(members@), name@, 0) == members.len(),
        },
{
    let mut i: usize = 0;
    while i < members.len()
        invariant
            i <= members.len(),
            position_from(members_model(members@), name@, 0) == position_from(
                members_model(members@),
                name@,
                i as int,
            ),
        decreases members.len() - i,
    {
        if spells(members[i].0.as_str(), name) {
            return Some(i);
        }
        i += 1;
    }
    None
}

/// The position of the first member named `name`.
pub fn find(members: &Vec<(String, Json)>, name: &str) -> (r: Option<usize>)
    ensures
        match r {
            Some(i) => i < members.len() && position_from(members_model(members@), name@, 0) == i,
            None => position_from(members_model(members@), name@, 0) == members.len(),
        },
{
    let spelling = chars_of(name);
    find_spelled(members, &spelling)
}

/// A copy of `members` without those named `name`.
pub fn members_without(members: &Vec<(String, Json)>, name: &str) -> (r: Vec<(String, Json)>)
    ensures
        members_model(r@) == without(members_model(members@), name@),
        canonical(Tree::Object(members_model(members@))) ==> canonical(
            Tree::Object(members_model(r@)),
        ),
{
    proof {
        if canonical(Tree::Object(members_model(members@))) {
            without_keeps_canonical(members_model(members@), name@);
        }
    }
    let wanted = name.to_owned();
    let mut out: Vec<(String, Json)> = Vec::new();
    let mut i: usize = 0;
    while i < members.len()
        invariant
            i <= members.len(),
            wanted@ == name@,
            members_model(out@) == without_upto(members_model(members@), name@, i as int),
        decreases members.len() - i,
    {
        if members[i].0 != wanted {
            let ghost before = out@;
            out.push((members[i].0.clone(), members[i].1.clone()));
            assert(members_model(out@) =~= members_model(before).push(
                members_model(members@)[i as int],
            ));
        }
        i += 1;
    }
    out
}

/// Binds `name` to `value` in `members`.
pub fn set_member(members: &mut Vec<(String, Json)>, name: String, value: Json)
    ensures
        members_model(final(members)@) == with(members_model(old(members)@), name@, value@),
        canonical(Tree::Object(members_model(old(members)@))) && canonical(value@) ==> canonical(
            Tree::Object(members_model(final(members)@)),
        ),
{
    proof {
        if canonical(Tree::Object(members_model(old(members)@))) && canonical(value@) {
            with_keeps_canonical(members_model(old(members)@), name@, value@);
        }
    }
    let mut i: usize = 0;
    while i < members.len() && comes_before(members[i].0.as_str(), name.as_str())
        invariant
            i <= members.len(),
            members@ == old(members)@,
            slot_from(members_model(members@), name@, 0) == slot_from(
                members_model(members@),
                name@,
                i as int,
            ),
        decreases members.len() - i,
    {
        i += 1;
    }
    let ghost before = members_model(members@);
    let ghost entry = (name@, value@);
    if i < members.len() && !comes_before(name.as_str(), members[i].0.as_str()) {
        members[i] = (name, value);
        assert(members_model(members@) =~= before.update(i as int, entry));
    } else {
        members.insert(i, (name, value));
        assert(members_model(members@) =~= before.insert(i as int, entry));
    }
}

impl Json {
    /// The value of the first member named `name`, where this is an object
    /// that has one.
    pub fn get(&self, name: &str) -> (r: Option<&Json>)
        ensures
            match r {
                Some(value) => self@ is Object && lookup(self@->Object_0, name@) == Some(value@),
                None => !(self@ is Object) || lookup(self@->Object_0, name@) is None,
            },
    {
        match self {
            Json::Object(members) => match find(members, name) {
                Some(i) => Some(&members[i].1),
                None => None,
            },
            _ => None,
        }
    }

    /// An object without members.
    pub fn object() -> (r: Json)
        ensures
            r@ == Tree::Object(Seq::empty()),
            canonical(r@),
    {
        let r = Json::Object(Vec::new());
        assert(members_model(Seq::<(String, Json)>::empty()) =~= Seq::empty());
        proof {
            object_in_order(Seq::empty());
        }
        r
    }

    /// Binds `name` to `value` where this is an object, and does nothing
    /// where it is not.
    pub fn insert(&mut self, name: &str, value: Json)
        ensures
            final(self)@ == match old(self)@ {
                Tree::Object(members) => Tree::Object(with(members, name@, value@)),
                other => other,
            },
            canonical(old(self)@) && canonical(value@) ==> canonical(final(self)@),
    {
        match self {
            Json::Object(members) => {
                set_member(members, name.to_owned(), value);
            },
            _ => {},
        }
    }

    /// Whether every object in the document holds its members by ascending
    /// name.
    #[verifier::loop_isolation(false)]
    pub fn is_canonical(&self) -> (r: bool)
        ensures
            r == canonical(self@),
        decreases self,
    {
        match self {
            Json::Array(items) => {
                let ghost model = items_model(items@);
                assert(Tree::Array(model)->Array_0 == model);
                let mut i: usize = 0;
                while i < items.len()
                    invariant
                        i <= items.len(),
                        forall|k: int| 0 <= k < i ==> canonical(#[trigger] model[k]),
                    decreases items.len() - i,
                {
                    assert(model[i as int] == items[i as int]@);
                    if !items[i].is_canonical() {
                        return false;
                    }
                    i += 1;
                }
                true
            },
            Json::Object(members) => {
                let ghost model = members_model(members@);
                assert(Tree::Object(model)->Object_0 == model);
                let mut i: usize = 0;
                while i < members.len()
                    invariant
                        i <= members.len(),
                        forall|k: int| 0 <= k < i ==> canonical((#[trigger] model[k]).1),
                        forall|k: int|
                            #![trigger model[k]]
                            0 < k < i ==> precedes(model[k - 1].0, model[k].0),
                    decreases members.len() - i,
                {
                    assert(model[i as int] == (members[i as int].0@, members[i as int].1@));
                    if i > 0 {
                        assert(model[i - 1] == (members[i - 1].0@, members[i - 1].1@));
                        if !comes_before(members[i - 1].0.as_str(), members[i].0.as_str()) {
                            return false;
                        }
                    }
                    if !members[i].1.is_canonical() {
                        return false;
                    }
                    i += 1;
                }
                proof {
                    assert forall|a: int, b: int| 0 <= a < b < model.len() implies precedes(
                        (#[trigger] model[a]).0,
                        (#[trigger] model[b]).0,
                    ) by {
                        ascending_neighbours_are_in_order(model, a, b);
                    }
                }
                true
            },
            _ => true,
        }
    }

    /// A deep copy of the document.
    #[verifier::loop_isolation(false)]
    pub fn copy(&self) -> (r: Json)
        ensures
            r@ == self@,
        decreases self,
    {
        match self {
            Json::Null => Json::Null,
            Json::Bool(b) => Json::Bool(*b),
            Json::Number(n) => Json::Number(*n),
            Json::String(s) => Json::String(s.clone()),
            Json::Array(items) => {
                let mut out: Vec<Json> = Vec::new();
                let mut i: usize = 0;
                while i < items.len()
                    invariant
                        i <= items.len(),
                        out.len() == i,
                        forall|k: int| 0 <= k < i ==> out[k]@ == items[k]@,
                    decreases items.len() - i,
                {
                    out.push(items[i].copy());
                    i += 1;
                }
                let r = Json::Array(out);
                assert(items_model(out@) =~= items_model(items@));
                r
            },
            Json::Object(members) => {
                let mut out: Vec<(String, Json)> = Vec::new();
                let mut i: usize = 0;
                while i < members.len()
                    invariant
                        i <= members.len(),
                        out.len() == i,
                        forall|k: int| 0 <= k < i ==> out[k].0@ == members[k].0@ && out[k].1@ == members[k].1@,
                    decreases members.len() - i,
                {
                    out.push((members[i].0.clone(), members[i].1.copy()));
                    i += 1;
                }
                let r = Json::Object(out);
                assert(members_model(out@) =~= members_model(members@));
                r
            },
        }
    }
}

} // verus!
