//! The engine: a cache of documents, the configuration, and the walk that
//! replaces references by what they point to.

use crate::cache::Cache;
use crate::error::Error;
use crate::error::ErrorKind;
use crate::error::Failure;
use crate::json::canonical;
use crate::json::find;
use crate::json::items_model;
use crate::json::members_model;
use crate::json::members_without;
use crate::json::set_member;
use crate::json::Json;
use crate::json::Members;
use crate::json::Tree;
use crate::location::document_identifier;
use crate::location::file_path;
use crate::location::resolve_reference;
use crate::location::transport_for;
use crate::location::without_fragment;
use crate::location::Place;
use crate::location::Target;
use crate::order::caching_keeps_order;
use crate::order::documents_in_order;
use crate::order::resolution_keeps_order;
use crate::outcome::Halt;
use crate::outcome::Request;
use crate::outcome::Stop;
use crate::outcome::Transport;
use crate::pointer::pointer;
use crate::text::chars_of;
use crate::text::spells;
use crate::walk::demand;
use crate::walk::descend;
use crate::walk::effective_base;
use crate::walk::find_target;
use crate::walk::found_at;
use crate::walk::id_name;
use crate::walk::items_stop_stays;
use crate::walk::members_stop_stays;
use crate::walk::ref_name;
use crate::walk::reference_of;
use crate::walk::resolve;
use crate::walk::resolve_items;
use crate::walk::resolve_members;
use crate::walk::siblings;
use crate::walk::splice;
use crate::walk::Context;
use vstd::prelude::*;

verus! {

/// The model of a trail of references.
pub open spec fn trail_model(trail: Seq<String>) -> Seq<Seq<char>> {
    Seq::new(trail.len(), |i: int| trail[i]@)
}

/// The model of what a resolution returns.
pub open spec fn outcome_model(outcome: Result<Json, Stop>) -> Result<Tree, Halt> {
    match outcome {
        Ok(document) => Ok(document@),
        Err(stop) => Err(stop@),
    }
}

/// The name of the member that holds a reference.
pub fn ref_key() -> (name: &'static str)
    ensures
        name@ == ref_name(),
{
    proof {
        reveal_strlit("$ref");
    }
    let name = "$ref";
    assert(name@ =~= ref_name());
    name
}

/// The name of the member that holds a node's own identifier.
pub fn id_key() -> (name: &'static str)
    ensures
        name@ == id_name(),
{
    proof {
        reveal_strlit("$id");
    }
    let name = "$id";
    assert(name@ =~= id_name());
    name
}

/// The base identifier in effect at `node` and below it.
pub fn base_at<'a>(node: &'a Json, inherited: &'a str) -> (base: &'a str)
    ensures
        base@ == effective_base(node@, inherited@),
{
    match node {
        Json::Object(members) => match find(members, id_key()) {
            Some(i) => {
                assert(members_model(members@)[i as int].1 == members[i as int].1@);
                match &members[i].1 {
                    Json::String(own) => own.as_str(),
                    _ => inherited,
                }
            },
            None => inherited,
        },
        _ => inherited,
    }
}

/// The reference that `node` holds.
pub fn reference_in(node: &Json) -> (r: Option<&String>)
    ensures
        match r {
            Some(reference) => reference_of(node@) == Some(reference@),
            None => reference_of(node@) is None,
        },
{
    match node {
        Json::Object(members) => match find(members, ref_key()) {
            Some(i) => {
                assert(members_model(members@)[i as int].1 == members[i as int].1@);
                match &members[i].1 {
                    Json::String(reference) => Some(reference),
                    _ => None,
                }
            },
            None => None,
        },
        _ => None,
    }
}

/// What stands beside the reference in `node`.
pub fn siblings_of(node: &Json) -> (beside: Json)
    ensures
        beside@ == siblings(node@),
{
    match node {
        Json::Object(members) => Json::Object(members_without(members, ref_key())),
        _ => node.clone(),
    }
}

/// The node that takes the place of a reference.
pub fn splice_in(resolved: Json, keep: &Option<String>, beside: Json) -> (node: Json)
    ensures
        node@ == splice(
            resolved@,
            match keep {
                Some(name) => Some(name@),
                None => None,
            },
            beside@,
        ),
{
    match keep {
        Some(name) => match resolved {
            Json::Object(mut members) => {
                set_member(&mut members, name.clone(), beside);
                Json::Object(members)
            },
            other => other,
        },
        None => resolved,
    }
}

/// Whether `full` is on the trail.
pub fn on_trail(trail: &Vec<String>, full: &String) -> (r: bool)
    ensures
        r == trail_model(trail@).contains(full@),
{
    let mut i: usize = 0;
    while i < trail.len()
        invariant
            i <= trail.len(),
            forall|k: int| 0 <= k < i ==> trail_model(trail@)[k] != full@,
        decreases trail.len() - i,
    {
        if trail[i] == *full {
            assert(trail_model(trail@)[i as int] == full@);
            return true;
        }
        i += 1;
    }
    false
}

/// The trail with `full` at its end.
pub fn extend_trail(trail: &Vec<String>, full: &String) -> (longer: Vec<String>)
    ensures
        trail_model(longer@) == trail_model(trail@).push(full@),
{
    let mut longer: Vec<String> = Vec::new();
    let mut i: usize = 0;
    while i < trail.len()
        invariant
            i <= trail.len(),
            longer.len() == i,
            forall|k: int| 0 <= k < i ==> longer[k]@ == trail[k]@,
        decreases trail.len() - i,
    {
        longer.push(trail[i].clone());
        i += 1;
    }
    longer.push(full.clone());
    assert(trail_model(longer@) =~= trail_model(trail@).push(full@));
    longer
}

/// How a resolution stops for a document that the cache does not hold.
pub fn demand_for(document: &str, base: &str, reference: &str) -> (stop: Stop)
    ensures
        stop@ == demand(document@, base@, reference@),
{
    match transport_for(document) {
        Some(Transport::Http) => Stop::Load(
            Request {
                transport: Transport::Http,
                identifier: document.to_owned(),
                path: None,
                base: base.to_owned(),
                reference: reference.to_owned(),
            },
        ),
        Some(Transport::File) => match file_path(document) {
            Some(path) => Stop::Load(
                Request {
                    transport: Transport::File,
                    identifier: document.to_owned(),
                    path: Some(path),
                    base: base.to_owned(),
                    reference: reference.to_owned(),
                },
            ),
            None => Stop::Failed(
                Error {
                    kind: ErrorKind::InvalidReference,
                    base: base.to_owned(),
                    reference: reference.to_owned(),
                },
            ),
        },
        None => Stop::Failed(
            Error {
                kind: ErrorKind::UnsupportedScheme,
                base: base.to_owned(),
                reference: reference.to_owned(),
            },
        ),
    }
}

/// A failure of `kind` at `reference` under `base`.
fn failed(kind: ErrorKind, base: &str, reference: &str) -> (stop: Stop)
    ensures
        stop@ == Halt::Failed(
            Failure { kind, base: base@, reference: reference@ },
        ),
{
    Stop::Failed(Error { kind, base: base.to_owned(), reference: reference.to_owned() })
}

/// The identifier of the file at the absolute path `path`.
pub open spec fn file_identifier(path: Seq<char>) -> Seq<char> {
    "file://"@ + path
}

/// The identifier under which a document held in memory is resolved: that
/// of a file `anon.json` in `directory`.
pub open spec fn anonymous_identifier(directory: Seq<char>) -> Seq<char> {
    "file://"@ + directory + "/anon.json"@
}

/// How the resolution of a root stops whose identifier `text` is no
/// absolute URI.
pub open spec fn refused_root(text: Seq<char>) -> Halt {
    Halt::Failed(Failure { kind: ErrorKind::InvalidBaseUri, base: text, reference: Seq::empty() })
}

/// The default limit on how deeply substitutions may nest: none but what
/// the machine can count.
pub const DEFAULT_DEPTH_LIMIT: usize = usize::MAX;

/// Resolves the references of JSON Schema documents.
#[derive(Debug)]
pub struct JsonRef {
    schema_cache: Cache,
    reference_key: Option<String>,
    depth_limit: usize,
}

impl JsonRef {
    /// The cached documents, by identifier.
    pub closed spec fn documents(&self) -> Map<Seq<char>, Tree> {
        self.schema_cache@
    }

    /// The name under which a substituted node keeps what its reference
    /// stood beside.
    pub closed spec fn kept_under(&self) -> Option<Seq<char>> {
        match self.reference_key {
            Some(name) => Some(name@),
            None => None,
        }
    }

    /// How deeply substitutions may nest.
    pub closed spec fn max_depth(&self) -> nat {
        self.depth_limit as nat
    }

    /// What a resolution by this engine reads.
    pub open spec fn context(&self) -> Context {
        Context { documents: self.documents(), keep: self.kept_under() }
    }

    /// An engine with an empty cache, which keeps nothing of what a
    /// reference stood beside.
    pub fn new() -> (engine: JsonRef)
        ensures
            engine.documents() == Map::<Seq<char>, Tree>::empty(),
            engine.kept_under() is None,
            engine.max_depth() == DEFAULT_DEPTH_LIMIT,
    {
        JsonRef { schema_cache: Cache::new(), reference_key: None, depth_limit: DEFAULT_DEPTH_LIMIT }
    }

    /// Makes every substituted node keep what its reference stood beside,
    /// under the name `reference_key`.
    pub fn set_reference_key(&mut self, reference_key: &str)
        ensures
            final(self).kept_under() == Some(reference_key@),
            final(self).documents() == old(self).documents(),
            final(self).max_depth() == old(self).max_depth(),
    {
        self.reference_key = Some(reference_key.to_owned());
    }

    /// Sets how deeply substitutions may nest. A resolution that would
    /// nest more deeply stops with `DepthExceeded`; one that does not comes
    /// out the same under every greater limit. Some documents have no
    /// finite resolution, such as one whose root refers to a part of it
    /// that refers back to the root: a limit ends their resolution.
    pub fn set_depth_limit(&mut self, limit: usize)
        ensures
            final(self).max_depth() == limit,
            final(self).documents() == old(self).documents(),
            final(self).kept_under() == old(self).kept_under(),
    {
        self.depth_limit = limit;
    }

    /// Caches `document` under `identifier`, unless a document is cached
    /// there already.
    pub fn provide(&mut self, identifier: &str, document: Json)
        ensures
            final(self).documents() == if old(self).documents().contains_key(identifier@) {
                old(self).documents()
            } else {
                old(self).documents().insert(identifier@, document@)
            },
            final(self).documents().contains_key(identifier@),
            documents_in_order(old(self).context()) && canonical(document@) ==> documents_in_order(
                final(self).context(),
            ),
            final(self).kept_under() == old(self).kept_under(),
            final(self).max_depth() == old(self).max_depth(),
    {
        proof {
            if documents_in_order(self.context()) && canonical(document@) {
                caching_keeps_order(self.context(), identifier@, document@);
            }
        }
        if !self.schema_cache.contains(identifier) {
            self.schema_cache.insert(identifier.to_owned(), document);
        }
    }

    /// Resolves the root `document`, which is known by the identifier
    /// `text`. The document is cached under the identifier as the resolver
    /// writes it, without a fragment, which is also its base identifier: so
    /// a reference into the document finds it in the cache. An identifier
    /// that is no absolute URI is refused, and nothing is cached.
    fn deref_root(&mut self, document: &Json, text: &str) -> (r: Result<Json, Stop>)
        ensures
            final(self).kept_under() == old(self).kept_under(),
            final(self).max_depth() == old(self).max_depth(),
            match without_fragment(text@) {
                Some(identifier) => final(self).documents() == old(self).documents().insert(
                    identifier,
                    document@,
                ) && outcome_model(r) == resolve(
                    final(self).context(),
                    document@,
                    identifier,
                    Seq::empty(),
                    final(self).max_depth(),
                ),
                None => final(self).documents() == old(self).documents() && outcome_model(r)
                    == Err::<Tree, Halt>(refused_root(text@)),
            },
            documents_in_order(old(self).context()) && canonical(document@) ==> documents_in_order(
                final(self).context(),
            ) && (r matches Ok(resolved) ==> canonical(resolved@)),
    {
        let identifier = match document_identifier(text) {
            Some(identifier) => identifier,
            None => {
                return Err(
                    Stop::Failed(
                        Error {
                            kind: ErrorKind::InvalidBaseUri,
                            base: text.to_owned(),
                            reference: String::new(),
                        },
                    ),
                );
            },
        };
        let trail: Vec<String> = Vec::new();
        assert(trail_model(trail@) =~= Seq::empty());
        proof {
            if documents_in_order(self.context()) && canonical(document@) {
                caching_keeps_order(self.context(), identifier@, document@);
            }
        }
        self.schema_cache.insert(identifier.clone(), document.clone());
        self.deref(document, identifier.as_str(), &trail, self.depth_limit)
    }

    /// Resolves a document held in memory, in place. It is known as the
    /// file `anon.json` in `directory`: it is cached under the identifier
    /// of that file as the resolver writes it, and resolved with that
    /// identifier as its base. Where the resolution stops, `value` is left
    /// as it was; it stops at once, with nothing cached, where the
    /// identifier is no absolute URI.
    pub fn deref_value(&mut self, value: &mut Json, directory: &str) -> (r: Result<(), Stop>)
        ensures
            final(self).kept_under() == old(self).kept_under(),
            final(self).max_depth() == old(self).max_depth(),
            match without_fragment(anonymous_identifier(directory@)) {
                Some(identifier) => final(self).documents() == old(self).documents().insert(
                    identifier,
                    old(value)@,
                ) && match resolve(
                    final(self).context(),
                    old(value)@,
                    identifier,
                    Seq::empty(),
                    final(self).max_depth(),
                ) {
                    Ok(resolved) => r is Ok && final(value)@ == resolved,
                    Err(halt) => r matches Err(stop) && stop@ == halt && final(value)@ == old(
                        value,
                    )@,
                },
                None => final(self).documents() == old(self).documents() && final(value)@ == old(
                    value,
                )@ && (r matches Err(stop) && stop@ == refused_root(
                    anonymous_identifier(directory@),
                )),
            },
            documents_in_order(old(self).context()) && canonical(old(value)@) ==> documents_in_order(
                final(self).context(),
            ) && canonical(final(value)@),
    {
        let mut text = String::from_str("file://");
        text.append(directory);
        text.append("/anon.json");
        match self.deref_root(value, text.as_str()) {
            Ok(resolved) => {
                *value = resolved;
                Ok(())
            },
            Err(stop) => Err(stop),
        }
    }

    /// Resolves `document`, which was fetched from `url`. It is cached
    /// under `url` as the resolver writes it, without a fragment, and
    /// resolved with that identifier as its base. A `url` that is no
    /// absolute URI is refused, and nothing is cached.
    pub fn deref_url(&mut self, url: &str, document: &Json) -> (r: Result<Json, Stop>)
        ensures
            final(self).kept_under() == old(self).kept_under(),
            final(self).max_depth() == old(self).max_depth(),
            match without_fragment(url@) {
                Some(identifier) => final(self).documents() == old(self).documents().insert(
                    identifier,
                    document@,
                ) && outcome_model(r) == resolve(
                    final(self).context(),
                    document@,
                    identifier,
                    Seq::empty(),
                    final(self).max_depth(),
                ),
                None => final(self).documents() == old(self).documents() && outcome_model(r)
                    == Err::<Tree, Halt>(refused_root(url@)),
            },
            documents_in_order(old(self).context()) && canonical(document@) ==> documents_in_order(
                final(self).context(),
            ) && (r matches Ok(resolved) ==> canonical(resolved@)),
    {
        self.deref_root(document, url)
    }

    /// Resolves `document`, which was read from the file at the absolute
    /// path `file_path`. It is cached under the `file` identifier of that
    /// path as the resolver writes it, and resolved with that identifier as
    /// its base. Where that identifier is no absolute URI it is refused,
    /// and nothing is cached.
    pub fn deref_file(&mut self, file_path: &str, document: &Json) -> (r: Result<Json, Stop>)
        ensures
            final(self).kept_under() == old(self).kept_under(),
            final(self).max_depth() == old(self).max_depth(),
            match without_fragment(file_identifier(file_path@)) {
                Some(identifier) => final(self).documents() == old(self).documents().insert(
                    identifier,
                    document@,
                ) && outcome_model(r) == resolve(
                    final(self).context(),
                    document@,
                    identifier,
                    Seq::empty(),
                    final(self).max_depth(),
                ),
                None => final(self).documents() == old(self).documents() && outcome_model(r)
                    == Err::<Tree, Halt>(refused_root(file_identifier(file_path@))),
            },
            documents_in_order(old(self).context()) && canonical(document@) ==> documents_in_order(
                final(self).context(),
            ) && (r matches Ok(resolved) ==> canonical(resolved@)),
    {
        let mut text = String::from_str("file://");
        text.append(file_path);
        self.deref_root(document, text.as_str())
    }

    /// The value at `place` in the cached documents, for the reference
    /// `reference` that stands under the base identifier `base`.
    pub fn value_at<'a>(&'a self, place: &Target, base: &str, reference: &str) -> (r: Result<
        &'a Json,
        Stop,
    >)
        ensures
            match r {
                Ok(target) => found_at(self.context(), place@, base@, reference@) == Ok::<
                    Tree,
                    Halt,
                >(target@),
                Err(stop) => found_at(self.context(), place@, base@, reference@) == Err::<
                    Tree,
                    Halt,
                >(stop@),
            },
    {
        let document = match self.schema_cache.get(place.document.as_str()) {
            None => {
                return Err(demand_for(place.document.as_str(), base, reference));
            },
            Some(document) => document,
        };
        match &place.fragment {
            Some(fragment) => match pointer(document, fragment.as_str()) {
                None => Err(failed(ErrorKind::PointerNotFound, base, reference)),
                Some(target) => Ok(target),
            },
            None => Ok(document),
        }
    }

    /// Where `reference`, which stands under the base identifier `base`,
    /// leads in the cached documents.
    pub fn target_of(&self, base: &str, reference: &str) -> (r: Result<(Target, &Json), Stop>)
        ensures
            match r {
                Ok((place, target)) => find_target(self.context(), base@, reference@) == Ok::<
                    (Place, Tree),
                    Halt,
                >((place@, target@)),
                Err(stop) => find_target(self.context(), base@, reference@) == Err::<
                    (Place, Tree),
                    Halt,
                >(stop@),
            },
    {
        let place = match resolve_reference(base, reference) {
            Err(kind) => {
                return Err(failed(kind, base, reference));
            },
            Ok(place) => place,
        };
        let target = match self.value_at(&place, base, reference) {
            Err(stop) => {
                return Err(stop);
            },
            Ok(target) => target,
        };
        Ok((place, target))
    }

    /// The resolution of `value`, which stands under the base identifier
    /// `id` and is reached through the references `used_refs`, with `depth`
    /// substitutions left to nest.
    pub fn deref(&self, value: &Json, id: &str, used_refs: &Vec<String>, depth: usize) -> (r:
        Result<Json, Stop>)
        ensures
            outcome_model(r) == resolve(
                self.context(),
                value@,
                id@,
                trail_model(used_refs@),
                depth as nat,
            ),
            documents_in_order(self.context()) && canonical(value@) ==> (r matches Ok(resolved)
                ==> canonical(resolved@)),
        decreases depth, value, 1nat,
    {
        proof {
            if documents_in_order(self.context()) && canonical(value@) && resolve(
                self.context(),
                value@,
                id@,
                trail_model(used_refs@),
                depth as nat,
            ) is Ok {
                resolution_keeps_order(
                    self.context(),
                    value@,
                    id@,
                    trail_model(used_refs@),
                    depth as nat,
                );
            }
        }
        let here = base_at(value, id);
        let reference = match reference_in(value) {
            None => {
                return self.descend_into(value, true, here, used_refs, depth);
            },
            Some(reference) => reference,
        };
        let (place, target) = match self.target_of(here, reference.as_str()) {
            Err(stop) => {
                return Err(stop);
            },
            Ok(found) => found,
        };
        let beside = siblings_of(value);
        if on_trail(used_refs, &place.full) {
            return Ok(beside);
        }
        if depth == 0 {
            return Err(failed(ErrorKind::DepthExceeded, here, reference.as_str()));
        }
        let longer = extend_trail(used_refs, &place.full);
        let resolved = match self.deref(target, place.document.as_str(), &longer, depth - 1) {
            Err(stop) => {
                return Err(stop);
            },
            Ok(resolved) => resolved,
        };
        let spliced = splice_in(resolved, &self.reference_key, beside);
        self.descend_into(&spliced, false, here, used_refs, depth - 1)
    }

    /// `node` with each value directly under it resolved.
    #[verifier::loop_isolation(false)]
    fn descend_into(
        &self,
        node: &Json,
        strip: bool,
        base: &str,
        trail: &Vec<String>,
        depth: usize,
    ) -> (r: Result<Json, Stop>)
        ensures
            outcome_model(r) == descend(
                self.context(),
                node@,
                strip,
                base@,
                trail_model(trail@),
                depth as nat,
            ),
        decreases depth, node, 0nat,
    {
        match node {
            Json::Object(members) => {
                let reference_name = chars_of(ref_key());
                let ghost context = self.context();
                let ghost model = members_model(members@);
                let ghost path = trail_model(trail@);
                let mut out: Vec<(String, Json)> = Vec::new();
                let mut i: usize = 0;
                assert(members_model(out@) =~= Seq::empty());
                while i < members.len()
                    invariant
                        i <= members.len(),
                        resolve_members(context, model, i as nat, strip, base@, path, depth as nat)
                            == Ok::<Members, Halt>(members_model(out@)),
                    decreases members.len() - i,
                {
                    assert(model[i as int] == (members[i as int].0@, members[i as int].1@));
                    if !(strip && spells(members[i].0.as_str(), &reference_name)) {
                        match self.deref(&members[i].1, base, trail, depth) {
                            Err(stop) => {
                                proof {
                                    members_stop_stays(
                                        context,
                                        model,
                                        (i + 1) as nat,
                                        model.len(),
                                        strip,
                                        base@,
                                        path,
                                        depth as nat,
                                    );
                                }
                                return Err(stop);
                            },
                            Ok(value) => {
                                let ghost before = out@;
                                out.push((members[i].0.clone(), value));
                                assert(members_model(out@) =~= members_model(before).push(
                                    (members[i as int].0@, value@),
                                ));
                            },
                        }
                    }
                    i += 1;
                }
                Ok(Json::Object(out))
            },
            Json::Array(items) => {
                let ghost context = self.context();
                let ghost model = items_model(items@);
                let ghost path = trail_model(trail@);
                let mut out: Vec<Json> = Vec::new();
                let mut i: usize = 0;
                assert(items_model(out@) =~= Seq::empty());
                while i < items.len()
                    invariant
                        i <= items.len(),
                        resolve_items(context, model, i as nat, base@, path, depth as nat) == Ok::<
                            Seq<Tree>,
                            Halt,
                        >(items_model(out@)),
                    decreases items.len() - i,
                {
                    assert(model[i as int] == items[i as int]@);
                    match self.deref(&items[i], base, trail, depth) {
                        Err(stop) => {
                            proof {
                                items_stop_stays(
                                    context,
                                    model,
                                    (i + 1) as nat,
                                    model.len(),
                                    base@,
                                    path,
                                    depth as nat,
                                );
                            }
                            return Err(stop);
                        },
                        Ok(value) => {
                            let ghost before = out@;
                            out.push(value);
                            assert(items_model(out@) =~= items_model(before).push(value@));
                        },
                    }
                    i += 1;
                }
                Ok(Json::Array(out))
            },
            _ => Ok(node.clone()),
        }
    }
}

} // verus!
