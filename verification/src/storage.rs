//! `EinmoStorage`: where one case's input and stage artifacts live,
//! addressed by `(EinmoId, ArtifactLocation)` rather than by path, so a
//! non-filesystem implementation never has to fake directories.
//!
//! [`InMemoryStorage`] is the in-memory implementation; the filesystem
//! implementation (one suite root, its `input/` tree and its stage
//! directories) lives with the binary, where the I/O is.

use vstd::prelude::*;
use vstd::slice::slice_to_vec;
use crate::error::EinmoError;
use crate::stage::{id_views, ids_strictly_sorted, mirror_spec, sort_dedup_ids, stage_dir_name, EinmoId, Stage};
use crate::text::{own, path_join, path_join_spec};

verus! {

/// One place an artifact can live: the `input/` tree, a stage's own
/// directory, or a stage's nested flagged sink. A stage's own location
/// excludes its flagged sink even though the sink sits inside the stage
/// directory on disk.
#[derive(Debug, Clone, Copy, PartialEq, Eq, Hash, Structural)]
pub enum ArtifactLocation {
    /// The `input/` tree.
    Input,
    /// A stage's own directory.
    Stage(Stage),
    /// The flagged sink nested inside a stage.
    Flagged(Stage),
}

/// The address of one artifact: a case id's text and a location.
pub type ArtifactKey = (Seq<char>, ArtifactLocation);

/// Where one suite's artifacts live, modelled as a finite map from
/// `(id, location)` to bytes.
pub trait EinmoStorage {
    /// Every stored artifact.
    spec fn artifacts(&self) -> Map<ArtifactKey, Seq<u8>>;

    /// Whether this storage never fails: every read, write, removal and
    /// listing on it returns `Ok` (an in-memory store does; one on disk
    /// need not).
    spec fn infallible(&self) -> bool;

    /// Read one artifact's raw bytes, or `None` if it does not exist.
    ///
    /// # Errors
    /// Any failure other than "does not exist".
    fn read(&self, id: &EinmoId, at: ArtifactLocation) -> (r: Result<Option<Vec<u8>>, EinmoError>)
        ensures
            r matches Ok(o) ==> (o is Some <==> self.artifacts().dom().contains((id@, at))),
            r matches Ok(Some(b)) ==> b@ == self.artifacts()[(id@, at)],
            r matches Err(e) ==> e is Io,
            self.infallible() ==> r is Ok,
    ;

    /// Write (create or overwrite) one artifact's raw bytes.
    ///
    /// # Errors
    /// Any failure.
    fn write(&mut self, id: &EinmoId, at: ArtifactLocation, bytes: &[u8]) -> (r: Result<(), EinmoError>)
        ensures
            r is Ok ==> final(self).artifacts() == old(self).artifacts().insert((id@, at), bytes@),
            r matches Err(e) ==> e is Io,
            old(self).infallible() ==> r is Ok,
            final(self).infallible() == old(self).infallible(),
    ;

    /// Remove one artifact; a no-op, not an error, if it does not exist.
    ///
    /// # Errors
    /// Any failure other than "does not exist".
    fn remove(&mut self, id: &EinmoId, at: ArtifactLocation) -> (r: Result<(), EinmoError>)
        ensures
            r is Ok ==> final(self).artifacts() == old(self).artifacts().remove((id@, at)),
            r matches Err(e) ==> e is Io,
            old(self).infallible() ==> r is Ok,
            final(self).infallible() == old(self).infallible(),
    ;

    /// Every case id with something at `at`, each once.
    ///
    /// # Errors
    /// Any failure, or an invalid id recovered from a stored path.
    fn list_ids(&self, at: ArtifactLocation) -> (r: Result<Vec<EinmoId>, EinmoError>)
        ensures
            r matches Ok(ids) ==> id_views(ids@).no_duplicates(),
            r matches Err(e) ==> e is Io || e is InvalidId,
            self.infallible() ==> r is Ok,
            r matches Ok(ids) ==> forall|x: Seq<char>|
                id_views(ids@).contains(x) <==> self.artifacts().dom().contains((x, at)),
    ;
}

/// One artifact held by [`InMemoryStorage`].
#[derive(Debug, Clone)]
struct StoredArtifact {
    id: EinmoId,
    at: ArtifactLocation,
    bytes: Vec<u8>,
}

/// An in-memory [`EinmoStorage`]: every artifact held in one list with at
/// most one entry per `(id, location)`.
#[derive(Debug)]
pub struct InMemoryStorage {
    entries: Vec<StoredArtifact>,
}

/// The key of an entry.
spec fn entry_key(e: StoredArtifact) -> ArtifactKey {
    (e.id@, e.at)
}

impl InMemoryStorage {
    /// No two entries share a key.
    #[verifier::type_invariant]
    spec fn unique_keys(&self) -> bool {
        forall|i: int, j: int|
            0 <= i < self.entries@.len() && 0 <= j < self.entries@.len() && i != j
                ==> entry_key(#[trigger] self.entries@[i]) != entry_key(#[trigger] self.entries@[j])
    }

    spec fn has_key(&self, k: ArtifactKey) -> bool {
        exists|i: int| 0 <= i < self.entries@.len() && entry_key(#[trigger] self.entries@[i]) == k
    }

    spec fn slot(&self, k: ArtifactKey) -> int {
        choose|i: int| 0 <= i < self.entries@.len() && entry_key(#[trigger] self.entries@[i]) == k
    }

    /// An empty store.
    pub fn new() -> (r: InMemoryStorage)
        ensures
            r.artifacts() == Map::<ArtifactKey, Seq<u8>>::empty(),
    {
        let r = InMemoryStorage { entries: Vec::new() };
        assert(r.artifacts() =~= Map::<ArtifactKey, Seq<u8>>::empty());
        r
    }

    /// The position of `(id, at)`, if stored.
    fn find(&self, id: &EinmoId, at: ArtifactLocation) -> (r: Option<usize>)
        ensures
            r matches Some(i) ==> i < self.entries@.len() && entry_key(self.entries@[i as int]) == (id@, at),
            r is None ==> !self.has_key((id@, at)),
    {
        let mut i: usize = 0;
        while i < self.entries.len()
            invariant
                i <= self.entries@.len(),
                forall|j: int| 0 <= j < i ==> entry_key(#[trigger] self.entries@[j]) != (id@, at),
            decreases self.entries@.len() - i,
        {
            if self.entries[i].at == at && self.entries[i].id.same(id) {
                return Some(i);
            }
            i = i + 1;
        }
        None
    }

    /// Every stored artifact as `(id, location, bytes)`, each key once.
    pub fn entries(&self) -> (r: Vec<(EinmoId, ArtifactLocation, Vec<u8>)>)
        ensures
            forall|i: int| 0 <= i < r@.len() ==> self.artifacts().dom().contains(((#[trigger] r@[i]).0@, r@[i].1))
                && self.artifacts()[(r@[i].0@, r@[i].1)] == r@[i].2@,
            forall|k: ArtifactKey| #[trigger] self.artifacts().dom().contains(k) ==> exists|i: int| 0 <= i < r@.len()
                && (r@[i].0@, r@[i].1) == k,
            forall|i: int, j: int| 0 <= i < r@.len() && 0 <= j < r@.len() && i != j
                ==> ((#[trigger] r@[i]).0@, r@[i].1) != ((#[trigger] r@[j]).0@, r@[j].1),
    {
        proof {
            use_type_invariant(self);
        }
        let mut out: Vec<(EinmoId, ArtifactLocation, Vec<u8>)> = Vec::new();
        let mut i: usize = 0;
        while i < self.entries.len()
            invariant
                i <= self.entries@.len(),
                self.unique_keys(),
                out@.len() == i,
                forall|k: int| 0 <= k < i ==> (#[trigger] out@[k]).0@ == self.entries@[k].id@
                    && out@[k].1 == self.entries@[k].at && out@[k].2@ == self.entries@[k].bytes@,
            decreases self.entries@.len() - i,
        {
            let e = &self.entries[i];
            out.push((e.id.duplicate(), e.at, slice_to_vec(e.bytes.as_slice())));
            i = i + 1;
        }
        proof {
            assert forall|x: int| 0 <= x < out@.len() implies self.artifacts().dom().contains(((#[trigger] out@[x]).0@, out@[x].1))
                && self.artifacts()[(out@[x].0@, out@[x].1)] == out@[x].2@ by {
                self.lemma_slot(x);
            }
            assert forall|k: ArtifactKey| #[trigger] self.artifacts().dom().contains(k) implies exists|x: int| 0 <= x < out@.len()
                && (out@[x].0@, out@[x].1) == k by {
                let x = self.slot(k);
                assert((out@[x].0@, out@[x].1) == entry_key(self.entries@[x]));
            }
            assert forall|x: int, y: int| 0 <= x < out@.len() && 0 <= y < out@.len() && x != y
                implies ((#[trigger] out@[x]).0@, out@[x].1) != ((#[trigger] out@[y]).0@, out@[y].1) by {
                assert(entry_key(self.entries@[x]) != entry_key(self.entries@[y]));
            }
        }
        out
    }

    proof fn lemma_slot(&self, i: int)
        requires
            self.unique_keys(),
            0 <= i < self.entries@.len(),
        ensures
            self.has_key(entry_key(self.entries@[i])),
            self.slot(entry_key(self.entries@[i])) == i,
    {
        let k = entry_key(self.entries@[i]);
        assert(self.has_key(k));
        let s = self.slot(k);
        assert(entry_key(self.entries@[s]) == k);
    }
}

impl EinmoStorage for InMemoryStorage {
    closed spec fn artifacts(&self) -> Map<ArtifactKey, Seq<u8>> {
        Map::new(|k: ArtifactKey| self.has_key(k), |k: ArtifactKey| self.entries@[self.slot(k)].bytes@)
    }

    open spec fn infallible(&self) -> bool {
        true
    }

    fn read(&self, id: &EinmoId, at: ArtifactLocation) -> (r: Result<Option<Vec<u8>>, EinmoError>) {
        proof {
            use_type_invariant(self);
        }
        match self.find(id, at) {
            Some(i) => {
                proof {
                    self.lemma_slot(i as int);
                }
                Ok(Some(slice_to_vec(self.entries[i].bytes.as_slice())))
            }
            None => Ok(None),
        }
    }

    fn write(&mut self, id: &EinmoId, at: ArtifactLocation, bytes: &[u8]) -> (r: Result<(), EinmoError>) {
        proof {
            use_type_invariant(&*self);
        }
        let ghost before = *self;
        let entry = StoredArtifact { id: id.duplicate(), at, bytes: slice_to_vec(bytes) };
        match self.find(id, at) {
            Some(i) => {
                let mut entries: Vec<StoredArtifact> = Vec::new();
                std::mem::swap(&mut entries, &mut self.entries);
                entries.set(i, entry);
                self.entries = entries;
                proof {
                    assert forall|k: ArtifactKey| self.has_key(k) <==> before.has_key(k) || k == (id@, at) by {
                        if self.has_key(k) {
                            let j = choose|j: int| 0 <= j < self.entries@.len() && entry_key(#[trigger] self.entries@[j]) == k;
                            if j != i {
                                assert(entry_key(before.entries@[j]) == k);
                            }
                        }
                        if before.has_key(k) {
                            let j = choose|j: int| 0 <= j < before.entries@.len() && entry_key(#[trigger] before.entries@[j]) == k;
                            assert(entry_key(self.entries@[j]) == k);
                        }
                        if k == (id@, at) {
                            assert(entry_key(self.entries@[i as int]) == k);
                        }
                    }
                    assert forall|k: ArtifactKey| self.has_key(k) implies
                        self.entries@[self.slot(k)].bytes@ == (if k == (id@, at) { bytes@ } else { before.entries@[before.slot(k)].bytes@ }) by {
                        let s = self.slot(k);
                        self.lemma_slot(s);
                        if k == (id@, at) {
                            self.lemma_slot(i as int);
                        } else {
                            assert(s != i);
                            assert(entry_key(before.entries@[s]) == k);
                            before.lemma_slot(s);
                        }
                    }
                    assert(self.artifacts() =~= before.artifacts().insert((id@, at), bytes@));
                }
            }
            None => {
                let mut entries: Vec<StoredArtifact> = Vec::new();
                std::mem::swap(&mut entries, &mut self.entries);
                entries.push(entry);
                self.entries = entries;
                proof {
                    let n = before.entries@.len() as int;
                    assert forall|k: ArtifactKey| self.has_key(k) <==> before.has_key(k) || k == (id@, at) by {
                        if self.has_key(k) {
                            let j = choose|j: int| 0 <= j < self.entries@.len() && entry_key(#[trigger] self.entries@[j]) == k;
                            if j != n {
                                assert(entry_key(before.entries@[j]) == k);
                            }
                        }
                        if before.has_key(k) {
                            let j = choose|j: int| 0 <= j < before.entries@.len() && entry_key(#[trigger] before.entries@[j]) == k;
                            assert(entry_key(self.entries@[j]) == k);
                        }
                        if k == (id@, at) {
                            assert(entry_key(self.entries@[n]) == k);
                        }
                    }
                    assert forall|k: ArtifactKey| self.has_key(k) implies
                        self.entries@[self.slot(k)].bytes@ == (if k == (id@, at) { bytes@ } else { before.entries@[before.slot(k)].bytes@ }) by {
                        let s = self.slot(k);
                        self.lemma_slot(s);
                        if k == (id@, at) {
                            self.lemma_slot(n);
                        } else {
                            assert(s != n);
                            assert(entry_key(before.entries@[s]) == k);
                            before.lemma_slot(s);
                        }
                    }
                    assert(self.artifacts() =~= before.artifacts().insert((id@, at), bytes@));
                }
            }
        }
        Ok(())
    }

    fn remove(&mut self, id: &EinmoId, at: ArtifactLocation) -> (r: Result<(), EinmoError>) {
        proof {
            use_type_invariant(&*self);
        }
        let ghost before = *self;
        match self.find(id, at) {
            Some(i) => {
                let mut entries: Vec<StoredArtifact> = Vec::new();
                std::mem::swap(&mut entries, &mut self.entries);
                entries.remove(i);
                self.entries = entries;
                proof {
                    let b = before.entries@;
                    b.remove_ensures(i as int);
                    assert(self.entries@ =~= b.remove(i as int));
                    assert forall|k: ArtifactKey| self.has_key(k) <==> before.has_key(k) && k != (id@, at) by {
                        if self.has_key(k) {
                            let j = choose|j: int| 0 <= j < self.entries@.len() && entry_key(#[trigger] self.entries@[j]) == k;
                            if j < i {
                                assert(entry_key(b[j]) == k);
                                assert(j != i);
                            } else {
                                assert(entry_key(b[j + 1]) == k);
                                assert(j + 1 != i);
                            }
                        }
                        if before.has_key(k) && k != (id@, at) {
                            let j = choose|j: int| 0 <= j < b.len() && entry_key(#[trigger] b[j]) == k;
                            assert(j != i);
                            if j < i {
                                assert(entry_key(self.entries@[j]) == k);
                            } else {
                                assert(entry_key(self.entries@[j - 1]) == k);
                            }
                        }
                    }
                    assert forall|k: ArtifactKey| self.has_key(k) implies
                        self.entries@[self.slot(k)].bytes@ == before.entries@[before.slot(k)].bytes@ by {
                        let s = self.slot(k);
                        self.lemma_slot(s);
                        if s < i {
                            assert(entry_key(b[s]) == k);
                            before.lemma_slot(s);
                        } else {
                            assert(entry_key(b[s + 1]) == k);
                            before.lemma_slot(s + 1);
                        }
                    }
                    assert(self.artifacts() =~= before.artifacts().remove((id@, at)));
                }
            }
            None => {
                proof {
                    assert(self.artifacts() =~= before.artifacts().remove((id@, at)));
                }
            }
        }
        Ok(())
    }

    fn list_ids(&self, at: ArtifactLocation) -> (r: Result<Vec<EinmoId>, EinmoError>) {
        proof {
            use_type_invariant(self);
        }
        let mut found: Vec<EinmoId> = Vec::new();
        let mut i: usize = 0;
        while i < self.entries.len()
            invariant
                i <= self.entries@.len(),
                forall|x: Seq<char>| id_views(found@).contains(x) <==>
                    exists|j: int| 0 <= j < i && #[trigger] entry_key(self.entries@[j]) == (x, at),
            decreases self.entries@.len() - i,
        {
            if self.entries[i].at == at {
                let ghost prev = found@;
                found.push(self.entries[i].id.duplicate());
                proof {
                    assert forall|x: Seq<char>| id_views(found@).contains(x) <==>
                        exists|j: int| 0 <= j < i + 1 && #[trigger] entry_key(self.entries@[j]) == (x, at) by {
                        if id_views(found@).contains(x) {
                            let w = choose|w: int| 0 <= w < found@.len() && #[trigger] id_views(found@)[w] == x;
                            if w < prev.len() {
                                assert(id_views(prev)[w] == x);
                                assert(id_views(prev).contains(x));
                            } else {
                                assert(entry_key(self.entries@[i as int]) == (x, at));
                            }
                        }
                        if exists|j: int| 0 <= j < i + 1 && #[trigger] entry_key(self.entries@[j]) == (x, at) {
                            let j = choose|j: int| 0 <= j < i + 1 && #[trigger] entry_key(self.entries@[j]) == (x, at);
                            if j < i {
                                assert(id_views(prev).contains(x));
                                let w = choose|w: int| 0 <= w < prev.len() && #[trigger] id_views(prev)[w] == x;
                                assert(id_views(found@)[w] == x);
                            } else {
                                assert(id_views(found@)[prev.len() as int] == x);
                            }
                        }
                    }
                }
            } else {
                proof {
                    assert forall|x: Seq<char>| id_views(found@).contains(x) <==>
                        exists|j: int| 0 <= j < i + 1 && #[trigger] entry_key(self.entries@[j]) == (x, at) by {
                        if exists|j: int| 0 <= j < i + 1 && #[trigger] entry_key(self.entries@[j]) == (x, at) {
                            let j = choose|j: int| 0 <= j < i + 1 && #[trigger] entry_key(self.entries@[j]) == (x, at);
                            assert(j != i);
                        }
                    }
                }
            }
            i = i + 1;
        }
        let ids = sort_dedup_ids(&found);
        proof {
            let v = id_views(ids@);
            assert(v.no_duplicates()) by {
                assert forall|a: int, b: int| 0 <= a < v.len() && 0 <= b < v.len() && a != b implies v[a] != v[b] by {
                    if a < b {
                        crate::text::lemma_seq_lt_trichotomy(v[a], v[b]);
                    } else {
                        crate::text::lemma_seq_lt_trichotomy(v[b], v[a]);
                    }
                }
            }
            assert forall|x: Seq<char>| v.contains(x) <==> self.artifacts().dom().contains((x, at)) by {
                if self.has_key((x, at)) {
                    let j = choose|j: int| 0 <= j < self.entries@.len() && entry_key(#[trigger] self.entries@[j]) == (x, at);
                    assert(exists|j: int| 0 <= j < self.entries@.len() && #[trigger] entry_key(self.entries@[j]) == (x, at));
                }
            }
        }
        Ok(ids)
    }
}

/// The name of the flagged sink inside every stage directory.
pub open spec fn flagged_dir_name() -> Seq<char> {
    "flagged"@
}

/// The directory of location `at` under suite root `root`: `input/`, a
/// stage's directory, or the flagged sink inside a stage's directory.
pub open spec fn location_dir_spec(root: Seq<char>, at: ArtifactLocation) -> Seq<char> {
    match at {
        ArtifactLocation::Input => path_join_spec(root, "input"@),
        ArtifactLocation::Stage(s) => path_join_spec(root, stage_dir_name(s)),
        ArtifactLocation::Flagged(s) => path_join_spec(path_join_spec(root, stage_dir_name(s)), flagged_dir_name()),
    }
}

/// Where artifact `(id, at)` lives under suite root `root`: an input at its
/// id's own path, anything else at the id's `.einmo` mirror path.
pub open spec fn artifact_path_spec(root: Seq<char>, id: Seq<char>, at: ArtifactLocation) -> Seq<char> {
    match at {
        ArtifactLocation::Input => path_join_spec(location_dir_spec(root, at), id),
        _ => path_join_spec(location_dir_spec(root, at), mirror_spec(id)),
    }
}

/// The filesystem layout of one suite: its root directory, its `input/`
/// tree and its stage directories. Reading and writing the files is the
/// caller's; this says where each artifact lives.
#[derive(Debug, Clone)]
pub struct EinmoDirectory {
    root: String,
}

impl EinmoDirectory {
    /// The suite root.
    pub closed spec fn root_spec(&self) -> Seq<char> {
        self.root@
    }

    /// Bind to the suite rooted at `root`.
    pub fn new(root: &str) -> (r: EinmoDirectory)
        ensures
            r.root_spec() == root@,
    {
        EinmoDirectory { root: own(root) }
    }

    /// The suite root.
    pub fn root(&self) -> (r: &str)
        ensures
            r@ == self.root_spec(),
    {
        self.root.as_str()
    }

    /// The directory of location `at`.
    pub fn location_dir(&self, at: ArtifactLocation) -> (r: String)
        ensures
            r@ == location_dir_spec(self.root_spec(), at),
    {
        match at {
            ArtifactLocation::Input => path_join(self.root.as_str(), "input"),
            ArtifactLocation::Stage(s) => path_join(self.root.as_str(), s.dir_name()),
            ArtifactLocation::Flagged(s) => {
                let d = path_join(self.root.as_str(), s.dir_name());
                path_join(d.as_str(), "flagged")
            },
        }
    }

    /// The path artifact `(id, at)` resolves to. Never fails: an id is
    /// validated at construction, so only reading or writing the path can.
    pub fn artifact_path(&self, id: &EinmoId, at: ArtifactLocation) -> (r: String)
        ensures
            r@ == artifact_path_spec(self.root_spec(), id@, at),
    {
        let dir = self.location_dir(at);
        match at {
            ArtifactLocation::Input => path_join(dir.as_str(), id.as_str()),
            _ => {
                let m = id.mirror_path();
                path_join(dir.as_str(), m.as_str())
            },
        }
    }
}

} // verus!
