//! The definition store: lookup, existence checks and all-or-nothing
//! enumeration over a snapshot of a definition directory.
//!
//! The store holds one entry per definition-suffixed file, as handed over by
//! the caller that listed the directory: the file stem, the full path and
//! the raw bytes (or the reason they could not be read).  All parsing and
//! error classification happens here.

use crate::fuzzy::{bytes_eq, lev, lev_bytes};
use crate::parse::{
    first_line, parse_definition, spec_deps, Definition, ParseErrorKind,
};
use crate::hashing::spec_content_hash;
use vstd::prelude::*;

verus! {

/// What reading one file produced.
pub enum FileContent {
    /// The raw bytes of the file.
    Bytes(Vec<u8>),
    /// The path is a dangling symbolic link.
    Dangling,
    /// The file could not be read.
    Unreadable,
}

/// One file of the definition directory.
pub struct FileEntry {
    /// The file stem: the definition's name.
    pub name: Vec<u8>,
    /// The full path of the file.
    pub path: Vec<u8>,
    /// The bytes read, or why reading failed.
    pub content: FileContent,
}

/// A failed lookup or enumeration.
#[derive(Debug)]
pub enum StoreError {
    /// No entry carries the requested name; the closest known name, by edit
    /// distance, is offered when the store is not empty.
    NotFound { name: Vec<u8>, suggestion: Option<Vec<u8>> },
    /// One file failed to parse.
    Parse { path: Vec<u8>, kind: ParseErrorKind },
    /// Several files failed to parse during enumeration; every failure is
    /// listed, in directory order.
    ParseAggregate { failed: Vec<(Vec<u8>, ParseErrorKind)> },
}

/// Whether an entry's bytes parse as a definition.
pub open spec fn entry_parses(e: FileEntry) -> bool {
    match e.content {
        FileContent::Bytes(b) => b@.len() > 0 && vstd::utf8::valid_utf8(b@) && spec_deps(
            b@,
        ) is Some,
        _ => false,
    }
}

/// The error an unparsable entry is reported with.
pub open spec fn entry_error(e: FileEntry) -> ParseErrorKind {
    match e.content {
        FileContent::Bytes(b) => if b@.len() == 0 {
            ParseErrorKind::EmptyFile
        } else if !vstd::utf8::valid_utf8(b@) {
            ParseErrorKind::NotText
        } else {
            ParseErrorKind::BadMetadata
        },
        FileContent::Dangling => ParseErrorKind::DanglingLink,
        FileContent::Unreadable => ParseErrorKind::Unreadable,
    }
}

/// The dependency names a parsing entry declares.
pub open spec fn entry_deps(e: FileEntry) -> Seq<Seq<u8>>
    recommends
        entry_parses(e),
{
    match e.content {
        FileContent::Bytes(b) => spec_deps(b@).unwrap(),
        _ => Seq::empty(),
    }
}

/// What a parsed definition looks like for a given entry.
pub open spec fn is_parse_of(d: Definition, e: FileEntry) -> bool {
    match e.content {
        FileContent::Bytes(b) => {
            &&& b@.len() > 0
            &&& vstd::utf8::valid_utf8(b@)
            &&& d.name@ == e.name@
            &&& d.path@ == e.path@
            &&& d.bang@ == first_line(b@)
            &&& Some(d.depends_on@.map_values(|v: Vec<u8>| v@)) == spec_deps(b@)
            &&& d.content_hash == spec_content_hash(b@)
            &&& d.tree_hash == spec_content_hash(b@)
        },
        _ => false,
    }
}

/// A snapshot of the definition directory.
pub struct DefinitionStore {
    /// One entry per definition file, in directory order.
    pub entries: Vec<FileEntry>,
}

/// Whether some entry carries this name.
pub open spec fn has_name(es: Seq<FileEntry>, n: Seq<u8>) -> bool {
    exists|i: int| 0 <= i < es.len() && (#[trigger] es[i]).name@ == n
}

impl DefinitionStore {
    /// Entry names are unique: the stem identifies one file.
    pub open spec fn wf(&self) -> bool {
        forall|i: int, j: int|
            0 <= i < j < self.entries@.len() ==> (#[trigger] self.entries@[i]).name@ != (
            #[trigger] self.entries@[j]).name@
    }

    /// Wraps a directory snapshot.
    pub fn new(entries: Vec<FileEntry>) -> (r: Self)
        ensures
            r.entries@ == entries@,
    {
        DefinitionStore { entries }
    }

    /// Checks that entry names are pairwise distinct, so an unverified
    /// caller can discharge `wf` visibly before resolving against the
    /// store.
    pub fn names_unique(&self) -> (r: bool)
        ensures
            r == self.wf(),
    {
        let mut i: usize = 0;
        while i < self.entries.len()
            invariant
                i <= self.entries@.len(),
                forall|a: int, b: int|
                    0 <= a < b < self.entries@.len() && a < i ==> (
                    #[trigger] self.entries@[a]).name@ != (#[trigger] self.entries@[b]).name@,
            decreases self.entries@.len() - i,
        {
            let mut j: usize = i + 1;
            while j < self.entries.len()
                invariant
                    i < j <= self.entries@.len(),
                    forall|b: int|
                        i < b < j ==> (#[trigger] self.entries@[b]).name@
                            != self.entries@[i as int].name@,
                decreases self.entries@.len() - j,
            {
                if bytes_eq(self.entries[i].name.as_slice(), self.entries[j].name.as_slice()) {
                    proof {
                        assert(self.entries@[i as int].name@ == self.entries@[j as int].name@);
                    }
                    return false;
                }
                j = j + 1;
            }
            i = i + 1;
        }
        true
    }

    /// Pure existence check: whether any entry carries `name`.  No parsing.
    pub fn contains_name(&self, name: &[u8]) -> (r: bool)
        ensures
            r == has_name(self.entries@, name@),
    {
        let mut i: usize = 0;
        while i < self.entries.len()
            invariant
                i <= self.entries@.len(),
                forall|k: int| 0 <= k < i ==> (#[trigger] self.entries@[k]).name@ != name@,
            decreases self.entries@.len() - i,
        {
            if bytes_eq(self.entries[i].name.as_slice(), name) {
                proof {
                    assert(self.entries@[i as int].name@ == name@);
                }
                return true;
            }
            i = i + 1;
        }
        false
    }

    /// Index of the entry carrying `name`, if any.
    pub fn find_index(&self, name: &[u8]) -> (r: Option<usize>)
        ensures
            match r {
                Some(i) => i < self.entries@.len() && self.entries@[i as int].name@ == name@,
                None => !has_name(self.entries@, name@),
            },
    {
        let mut i: usize = 0;
        while i < self.entries.len()
            invariant
                i <= self.entries@.len(),
                forall|k: int| 0 <= k < i ==> (#[trigger] self.entries@[k]).name@ != name@,
            decreases self.entries@.len() - i,
        {
            if bytes_eq(self.entries[i].name.as_slice(), name) {
                return Some(i);
            }
            i = i + 1;
        }
        None
    }

    /// Parses the entry at `i`.
    pub fn parse_at(&self, i: usize) -> (r: Result<Definition, ParseErrorKind>)
        requires
            i < self.entries@.len(),
        ensures
            r is Ok <==> entry_parses(self.entries@[i as int]),
            r matches Ok(d) ==> is_parse_of(d, self.entries@[i as int]),
            r matches Err(k) ==> k == entry_error(self.entries@[i as int]),
    {
        let e: &FileEntry = &self.entries[i];
        let name: Vec<u8> = clone_bytes(&e.name);
        let path: Vec<u8> = clone_bytes(&e.path);
        match &e.content {
            FileContent::Bytes(b) => parse_definition(name, path, b),
            FileContent::Dangling => Err(ParseErrorKind::DanglingLink),
            FileContent::Unreadable => Err(ParseErrorKind::Unreadable),
        }
    }

    /// The closest known name to `name` by Levenshtein distance, or `None`
    /// on an empty store.
    pub fn suggest(&self, name: &[u8]) -> (r: Option<Vec<u8>>)
        ensures
            r is Some <==> self.entries@.len() > 0,
            r matches Some(s) ==> has_name(self.entries@, s@) && forall|j: int|
                0 <= j < self.entries@.len() ==> lev(s@, name@) <= lev(
                    (#[trigger] self.entries@[j]).name@,
                    name@,
                ),
    {
        if self.entries.len() == 0 {
            return None;
        }
        let mut best: Vec<u8> = clone_bytes(&self.entries[0].name);
        let mut best_d: usize = lev_bytes(self.entries[0].name.as_slice(), name);
        proof {
            assert(self.entries@[0].name@ == best@);
        }
        let mut i: usize = 1;
        while i < self.entries.len()
            invariant
                1 <= i <= self.entries@.len(),
                has_name(self.entries@, best@),
                best_d as nat == lev(best@, name@),
                forall|j: int|
                    0 <= j < i ==> lev(best@, name@) <= lev(
                        (#[trigger] self.entries@[j]).name@,
                        name@,
                    ),
            decreases self.entries@.len() - i,
        {
            let d: usize = lev_bytes(self.entries[i].name.as_slice(), name);
            if d < best_d {
                best = clone_bytes(&self.entries[i].name);
                best_d = d;
                proof {
                    assert(self.entries@[i as int].name@ == best@);
                }
            }
            i = i + 1;
        }
        Some(best)
    }

    /// Looks up one definition by name and parses it.  A missing name is a
    /// `NotFound` error enriched with the closest known name; an unparsable
    /// file is a `Parse` error naming the file and cause.
    pub fn find(&self, name: &[u8]) -> (r: Result<Definition, StoreError>)
        requires
            self.wf(),
        ensures
            r is Ok <==> (exists|i: int|
                0 <= i < self.entries@.len() && (#[trigger] self.entries@[i]).name@ == name@
                    && entry_parses(self.entries@[i])),
            r matches Ok(d) ==> exists|i: int|
                0 <= i < self.entries@.len() && (#[trigger] self.entries@[i]).name@ == name@
                    && is_parse_of(d, self.entries@[i]),
            r matches Err(e) ==> match e {
                StoreError::NotFound { name: n, suggestion } => {
                    &&& !has_name(self.entries@, name@)
                    &&& n@ == name@
                    &&& (suggestion is Some <==> self.entries@.len() > 0)
                    &&& match suggestion {
                        Some(s) => has_name(self.entries@, s@) && forall|j: int|
                            0 <= j < self.entries@.len() ==> lev(s@, name@) <= lev(
                                (#[trigger] self.entries@[j]).name@,
                                name@,
                            ),
                        None => true,
                    }
                },
                StoreError::Parse { path, kind } => exists|i: int|
                    0 <= i < self.entries@.len() && (#[trigger] self.entries@[i]).name@ == name@
                        && !entry_parses(self.entries@[i]) && path@ == self.entries@[i].path@
                        && kind == entry_error(self.entries@[i]),
                StoreError::ParseAggregate { .. } => false,
            },
    {
        match self.find_index(name) {
            Some(i) => match self.parse_at(i) {
                Ok(d) => {
                    proof {
                        assert(self.entries@[i as int].name@ == name@ && entry_parses(
                            self.entries@[i as int],
                        ));
                    }
                    Ok(d)
                },
                Err(k) => {
                    proof {
                        assert forall|j: int|
                            0 <= j < self.entries@.len() && (#[trigger] self.entries@[j]).name@
                                == name@ implies !entry_parses(self.entries@[j]) by {
                            if j != i as int {
                                assert(self.entries@[j].name@ != self.entries@[i as int].name@);
                            }
                        }
                    }
                    let path: Vec<u8> = clone_bytes(&self.entries[i].path);
                    Err(StoreError::Parse { path, kind: k })
                },
            },
            None => {
                let suggestion: Option<Vec<u8>> = self.suggest(name);
                let owned: Vec<u8> = copy_slice(name);
                Err(StoreError::NotFound { name: owned, suggestion })
            },
        }
    }

    /// Parses every entry, in directory order.  All failures are gathered:
    /// the result is the full definition list exactly when every file
    /// parses, and otherwise one aggregate error listing every failing file
    /// with its cause, in order.
    pub fn enumerate(&self) -> (r: Result<Vec<Definition>, StoreError>)
        ensures
            r is Ok <==> (forall|i: int|
                0 <= i < self.entries@.len() ==> entry_parses(#[trigger] self.entries@[i])),
            r matches Ok(ds) ==> ds@.len() == self.entries@.len() && forall|i: int|
                0 <= i < ds@.len() ==> is_parse_of(#[trigger] ds@[i], self.entries@[i]),
            r matches Err(e) ==> match e {
                StoreError::ParseAggregate { failed } => failed@.map_values(
                    |p: (Vec<u8>, ParseErrorKind)| (p.0@, p.1),
                ) =~= spec_failures(self.entries@),
                _ => false,
            },
    {
        let mut defs: Vec<Definition> = Vec::new();
        let mut failed: Vec<(Vec<u8>, ParseErrorKind)> = Vec::new();
        let mut i: usize = 0;
        proof {
            assert(spec_failures(self.entries@.take(0)) =~= Seq::<(Seq<u8>, ParseErrorKind)>::empty());
            assert(failed@.map_values(|p: (Vec<u8>, ParseErrorKind)| (p.0@, p.1))
                =~= Seq::<(Seq<u8>, ParseErrorKind)>::empty());
        }
        while i < self.entries.len()
            invariant
                i <= self.entries@.len(),
                failed@.map_values(|p: (Vec<u8>, ParseErrorKind)| (p.0@, p.1)) =~= spec_failures(
                    self.entries@.take(i as int),
                ),
                failed@.len() == 0 ==> defs@.len() == i && forall|k: int|
                    0 <= k < i ==> is_parse_of(#[trigger] defs@[k], self.entries@[k]),
                failed@.len() == 0 <==> (forall|k: int|
                    0 <= k < i ==> entry_parses(#[trigger] self.entries@[k])),
            decreases self.entries@.len() - i,
        {
            let ghost pre_failed = failed@;
            proof {
                assert(self.entries@.take(i + 1).drop_last() =~= self.entries@.take(i as int));
                assert(self.entries@.take(i + 1).last() == self.entries@[i as int]);
            }
            match self.parse_at(i) {
                Ok(d) => {
                    defs.push(d);
                },
                Err(k) => {
                    let path: Vec<u8> = clone_bytes(&self.entries[i].path);
                    failed.push((path, k));
                    proof {
                        assert(failed@.map_values(|p: (Vec<u8>, ParseErrorKind)| (p.0@, p.1))
                            =~= pre_failed.map_values(
                            |p: (Vec<u8>, ParseErrorKind)| (p.0@, p.1),
                        ).push((self.entries@[i as int].path@, k)));
                    }
                },
            }
            i = i + 1;
        }
        proof {
            assert(self.entries@.take(self.entries@.len() as int) =~= self.entries@);
        }
        if failed.len() == 0 {
            Ok(defs)
        } else {
            proof {
                assert(spec_failures(self.entries@).len() > 0);
                lemma_failures_nonempty(self.entries@);
            }
            Err(StoreError::ParseAggregate { failed })
        }
    }
}

/// The failures of an entry sequence, in order: each unparsable entry's path
/// and cause.
pub open spec fn spec_failures(es: Seq<FileEntry>) -> Seq<(Seq<u8>, ParseErrorKind)>
    decreases es.len(),
{
    if es.len() == 0 {
        Seq::empty()
    } else {
        let rest = spec_failures(es.drop_last());
        if entry_parses(es.last()) {
            rest
        } else {
            rest.push((es.last().path@, entry_error(es.last())))
        }
    }
}

/// A nonempty failure list means some entry fails, and the other way round.
proof fn lemma_failures_nonempty(es: Seq<FileEntry>)
    ensures
        spec_failures(es).len() > 0 <==> exists|i: int|
            0 <= i < es.len() && !entry_parses(#[trigger] es[i]),
    decreases es.len(),
{
    if es.len() > 0 {
        lemma_failures_nonempty(es.drop_last());
        if !entry_parses(es.last()) {
            assert(es[es.len() - 1] == es.last());
        }
        if exists|i: int| 0 <= i < es.len() && !entry_parses(#[trigger] es[i]) {
            let i = choose|i: int| 0 <= i < es.len() && !entry_parses(#[trigger] es[i]);
            if i < es.len() - 1 {
                assert(es.drop_last()[i] == es[i]);
            }
        }
    }
}

/// Copies a borrowed byte slice into an owned vector.
pub fn copy_slice(s: &[u8]) -> (r: Vec<u8>)
    ensures
        r@ =~= s@,
{
    crate::parse::copy_range(s, 0, s.len())
}

/// Copies a byte vector.
pub fn clone_bytes(v: &Vec<u8>) -> (r: Vec<u8>)
    ensures
        r@ =~= v@,
{
    crate::parse::copy_range(v.as_slice(), 0, v.len())
}

} // verus!
