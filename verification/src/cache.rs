//! The cache of loaded documents, by identifier.

use crate::json::Json;
use crate::json::Tree;
use vstd::prelude::*;

verus! {

/// The documents that the first `n` entries hold; a later entry replaces an
/// earlier one of the same identifier.
pub open spec fn documents_upto(entries: Seq<(String, Json)>, n: int) -> Map<Seq<char>, Tree>
    decreases n,
{
    if n <= 0 {
        Map::empty()
    } else {
        documents_upto(entries, n - 1).insert(entries[n - 1].0@, entries[n - 1].1@)
    }
}

/// Entries that agree on their first `n` places hold the same documents
/// there.
proof fn documents_of_equal_prefixes(a: Seq<(String, Json)>, b: Seq<(String, Json)>, n: int)
    requires
        n <= a.len(),
        n <= b.len(),
        forall|i: int| 0 <= i < n ==> a[i] == b[i],
    ensures
        documents_upto(a, n) == documents_upto(b, n),
    decreases n,
{
    if n > 0 {
        documents_of_equal_prefixes(a, b, n - 1);
    }
}

/// The first `n` entries hold, under the identifier of entry `j`, the
/// document of that entry, where no later one of them has its identifier.
proof fn documents_by_last_entry(entries: Seq<(String, Json)>, n: int, j: int)
    requires
        0 <= j < n <= entries.len(),
        forall|k: int| j < k < n ==> entries[k].0@ != entries[j].0@,
    ensures
        documents_upto(entries, n).contains_key(entries[j].0@),
        documents_upto(entries, n)[entries[j].0@] == entries[j].1@,
    decreases n,
{
    if n > j + 1 {
        documents_by_last_entry(entries, n - 1, j);
    }
}

/// No entry of an identifier, no document of it.
proof fn documents_without_entry(entries: Seq<(String, Json)>, n: int, identifier: Seq<char>)
    requires
        n <= entries.len(),
        forall|k: int| 0 <= k < n ==> entries[k].0@ != identifier,
    ensures
        !documents_upto(entries, n).contains_key(identifier),
    decreases n,
{
    if n > 0 {
        documents_without_entry(entries, n - 1, identifier);
    }
}

/// Replacing the last entry of an identifier replaces its document.
proof fn documents_after_update(
    entries: Seq<(String, Json)>,
    n: int,
    j: int,
    entry: (String, Json),
)
    requires
        0 <= j < n <= entries.len(),
        entry.0@ == entries[j].0@,
        forall|k: int| j < k < n ==> entries[k].0@ != entries[j].0@,
    ensures
        documents_upto(entries.update(j, entry), n) == documents_upto(entries, n).insert(
            entry.0@,
            entry.1@,
        ),
    decreases n,
{
    let updated = entries.update(j, entry);
    if n == j + 1 {
        documents_of_equal_prefixes(entries, updated, j);
        assert(documents_upto(updated, n) =~= documents_upto(entries, n).insert(
            entry.0@,
            entry.1@,
        ));
    } else {
        documents_after_update(entries, n - 1, j, entry);
        assert(updated[n - 1] == entries[n - 1]);
        assert(documents_upto(updated, n) =~= documents_upto(entries, n).insert(
            entry.0@,
            entry.1@,
        ));
    }
}

/// Loaded documents, each under the identifier it was loaded from; no
/// identifier has two entries.
#[derive(Debug)]
pub struct Cache {
    entries: Vec<(String, Json)>,
}

impl View for Cache {
    type V = Map<Seq<char>, Tree>;

    closed spec fn view(&self) -> Map<Seq<char>, Tree> {
        documents_upto(self.entries@, self.entries.len() as int)
    }
}

impl Cache {
    /// No identifier has two entries.
    #[verifier::type_invariant]
    spec fn holds_each_identifier_once(&self) -> bool {
        forall|i: int, j: int|
            0 <= i < j < self.entries.len() ==> (#[trigger] self.entries[i]).0@
                != (#[trigger] self.entries[j]).0@
    }

    /// An empty cache.
    pub fn new() -> (cache: Cache)
        ensures
            cache@ == Map::<Seq<char>, Tree>::empty(),
    {
        Cache { entries: Vec::new() }
    }

    /// The position of the last entry of `identifier`.
    fn position(&self, identifier: &str) -> (r: Option<usize>)
        ensures
            match r {
                Some(j) => j < self.entries.len() && self.entries[j as int].0@ == identifier@
                    && forall|k: int|
                    j < k < self.entries.len() ==> self.entries[k].0@ != identifier@,
                None => forall|k: int|
                    0 <= k < self.entries.len() ==> self.entries[k].0@ != identifier@,
            },
    {
        let wanted = identifier.to_owned();
        let mut i: usize = self.entries.len();
        while i > 0
            invariant
                i <= self.entries.len(),
                wanted@ == identifier@,
                forall|k: int| i <= k < self.entries.len() ==> self.entries[k].0@ != identifier@,
            decreases i,
        {
            i -= 1;
            if self.entries[i].0 == wanted {
                return Some(i);
            }
        }
        None
    }

    /// The document cached under `identifier`.
    pub fn get(&self, identifier: &str) -> (r: Option<&Json>)
        ensures
            match r {
                Some(document) => self@.contains_key(identifier@) && self@[identifier@]
                    == document@,
                None => !self@.contains_key(identifier@),
            },
    {
        match self.position(identifier) {
            Some(j) => {
                proof {
                    documents_by_last_entry(self.entries@, self.entries.len() as int, j as int);
                }
                Some(&self.entries[j].1)
            },
            None => {
                proof {
                    documents_without_entry(
                        self.entries@,
                        self.entries.len() as int,
                        identifier@,
                    );
                }
                None
            },
        }
    }

    /// Whether a document is cached under `identifier`.
    pub fn contains(&self, identifier: &str) -> (r: bool)
        ensures
            r == self@.contains_key(identifier@),
    {
        self.get(identifier).is_some()
    }

    /// Caches `document` under `identifier`, in place of what was cached
    /// there.
    pub fn insert(&mut self, identifier: String, document: Json)
        ensures
            final(self)@ == old(self)@.insert(identifier@, document@),
    {
        proof {
            use_type_invariant(&*self);
        }
        let found = self.position(identifier.as_str());
        let ghost before = self.entries@;
        let ghost entry = (identifier, document);
        let mut entries: Vec<(String, Json)> = Vec::new();
        std::mem::swap(&mut self.entries, &mut entries);
        match found {
            Some(j) => {
                entries[j] = (identifier, document);
                proof {
                    documents_after_update(before, before.len() as int, j as int, entry);
                }
            },
            None => {
                entries.push((identifier, document));
                proof {
                    documents_of_equal_prefixes(before, entries@, before.len() as int);
                }
            },
        }
        std::mem::swap(&mut self.entries, &mut entries);
    }
}

} // verus!
